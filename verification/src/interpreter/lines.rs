//! Line by line rewriting of text.
use vstd::prelude::*;
use vstd::string::*;
use vstd::utf8::*;

use crate::error_meta::{has_line, lemma_line_count_bound, line_bytes, nth_line};
use crate::text::{lemma_view_is_decoded_bytes, repeat, repeat_str};

verus! {

/// The lines of `b` from line `n` on, each followed by a backslash and an `n`.
pub open spec fn escaped_from(b: Seq<u8>, n: nat) -> Seq<char>
    decreases b.len() - n,
{
    if has_line(b, n) {
        proof {
            lemma_line_count_bound(b, n);
        }
        decode_utf8(line_bytes(b, n)) + "\\n"@ + escaped_from(b, n + 1)
    } else {
        Seq::empty()
    }
}

/// Writes the lines of `text` on one line: each line, without its line feed, is
/// followed by a backslash and an `n`.
pub fn escaping_new_lines(text: &str) -> (r: String)
    ensures
        r@ == escaped_from(text.spec_bytes(), 0),
{
    let ghost b = text.spec_bytes();
    let total = text.as_bytes().len();
    let mut s = String::new();
    let mut n: usize = 0;
    loop
        invariant
            b == text.spec_bytes(),
            total == b.len(),
            s@ + escaped_from(b, n as nat) == escaped_from(b, 0),
            n <= b.len() + 1,
        ensures
            s@ == escaped_from(b, 0),
        decreases b.len() + 1 - n,
    {
        match nth_line(text, n) {
            Some(line) => {
                proof {
                    lemma_view_is_decoded_bytes(line);
                    lemma_line_count_bound(b, n as nat);
                    assert(s@ + line@ + "\\n"@ + escaped_from(b, (n + 1) as nat) =~= s@
                        + escaped_from(b, n as nat));
                }
                s.append(line);
                s.append("\\n");
                n = n + 1;
            },
            None => {
                proof {
                    assert(s@ + escaped_from(b, n as nat) =~= s@);
                }
                break ;
            },
        }
    }
    s
}

/// The lines of `b` from line `n` on, each after `pad`, with line feeds between
/// them; `first` says whether line `n` is the first one written.
pub open spec fn indented_from(b: Seq<u8>, n: nat, pad: Seq<char>, first: bool) -> Seq<char>
    decreases b.len() - n,
{
    if has_line(b, n) {
        proof {
            lemma_line_count_bound(b, n);
        }
        (if first {
            Seq::empty()
        } else {
            "\n"@
        }) + pad + decode_utf8(line_bytes(b, n)) + indented_from(b, n + 1, pad, false)
    } else {
        Seq::empty()
    }
}

/// The lines of `string`, each after `indent` spaces, joined by line feeds.
pub fn indent_lines(string: &str, indent: u8) -> (r: String)
    ensures
        r@ == indented_from(string.spec_bytes(), 0, repeat(" "@, indent as nat), true),
{
    let ghost b = string.spec_bytes();
    let total = string.as_bytes().len();
    let pad = repeat_str(" ", indent as usize);
    let ghost p = pad@;
    let mut s = String::new();
    let mut n: usize = 0;
    loop
        invariant
            b == string.spec_bytes(),
            p == pad@,
            p == repeat(" "@, indent as nat),
            total == b.len(),
            s@ + indented_from(b, n as nat, p, n == 0) == indented_from(b, 0, p, true),
            n <= b.len() + 1,
        ensures
            s@ == indented_from(b, 0, p, true),
        decreases b.len() + 1 - n,
    {
        match nth_line(string, n) {
            Some(line) => {
                proof {
                    lemma_view_is_decoded_bytes(line);
                    lemma_line_count_bound(b, n as nat);
                }
                let ghost before = s@;
                if n > 0 {
                    s.append("\n");
                }
                s.append(pad.as_str());
                s.append(line);
                proof {
                    assert(s@ + indented_from(b, (n + 1) as nat, p, false) =~= before
                        + indented_from(b, n as nat, p, n == 0));
                }
                n = n + 1;
            },
            None => {
                proof {
                    assert(s@ + indented_from(b, n as nat, p, n == 0) =~= s@);
                }
                break ;
            },
        }
    }
    s
}

} // verus!
