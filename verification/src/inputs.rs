//! Parsing a packing list: a text file with one input path per line.
//! Lines are trimmed of surrounding whitespace; blank lines and lines
//! starting with `#` are skipped.

use vstd::prelude::*;

verus! {

use crate::format::{is_ws, lemma_trim_fixed, trim_ws_end};
use crate::names::name_views;
use vstd::slice::{slice_subrange, slice_to_vec};

/// How many bytes the line starting at `from` has before its newline (or
/// the end of the text).
pub open spec fn line_len(s: Seq<u8>, from: int) -> nat
    decreases s.len() - from,
{
    if from < 0 || from >= s.len() {
        0
    } else if s[from] == 10 {
        0
    } else {
        1 + line_len(s, from + 1)
    }
}

/// `s` with every leading whitespace byte removed.
pub open spec fn trim_ws_start(s: Seq<u8>) -> Seq<u8>
    decreases s.len(),
{
    if s.len() == 0 {
        s
    } else if is_ws(s[0]) {
        trim_ws_start(s.subrange(1, s.len() as int))
    } else {
        s
    }
}

/// A line as it is used: whitespace stripped from both ends.
pub open spec fn trim_line(s: Seq<u8>) -> Seq<u8> {
    trim_ws_end(trim_ws_start(s))
}

/// A line never runs past the end of the text.
pub proof fn lemma_line_len_le(s: Seq<u8>, from: int)
    requires
        0 <= from <= s.len(),
    ensures
        from + line_len(s, from) <= s.len(),
    decreases s.len() - from,
{
    if from < s.len() && s[from] != 10 {
        lemma_line_len_le(s, from + 1);
    }
}

/// The input paths named from position `from` on: one trimmed line each,
/// blank and `#`-comment lines left out.
pub open spec fn parse_list_spec(s: Seq<u8>, from: int) -> Seq<Seq<u8>>
    decreases s.len() + 1 - from,
    via parse_list_spec_dec
{
    if from < 0 || from >= s.len() {
        Seq::empty()
    } else {
        let j = from + line_len(s, from);
        let t = trim_line(s.subrange(from, j));
        let rest = parse_list_spec(s, j + 1);
        if t.len() > 0 && t[0] != 35 {
            seq![t] + rest
        } else {
            rest
        }
    }
}

#[via_fn]
proof fn parse_list_spec_dec(s: Seq<u8>, from: int) {
    if 0 <= from < s.len() {
        lemma_line_len_le(s, from);
    }
}

/// What characterizes the end of the line starting at `from`.
proof fn lemma_line_len_char(s: Seq<u8>, from: int, j: int)
    requires
        0 <= from <= j <= s.len(),
        forall|k: int| from <= k < j ==> s[k] != 10,
        j == s.len() || s[j] == 10,
    ensures
        from + line_len(s, from) == j,
    decreases j - from,
{
    if from < j {
        lemma_line_len_char(s, from + 1, j);
    }
}

/// Leading whitespace up to `a` is what start-trimming removes.
proof fn lemma_trim_start_idx(s: Seq<u8>, from: int, j: int, a: int)
    requires
        0 <= from <= a <= j <= s.len(),
        forall|k: int| from <= k < a ==> is_ws(s[k]),
        a == j || !is_ws(s[a]),
    ensures
        trim_ws_start(s.subrange(from, j)) == s.subrange(a, j),
    decreases a - from,
{
    if from == a {
        if from == j {
            assert(s.subrange(from, j).len() == 0);
        } else {
            assert(s.subrange(from, j)[0] == s[from]);
        }
    } else {
        assert(s.subrange(from, j)[0] == s[from]);
        assert(is_ws(s[from]));
        assert(s.subrange(from, j).subrange(1, s.subrange(from, j).len() as int) =~= s.subrange(
            from + 1,
            j,
        ));
        lemma_trim_start_idx(s, from + 1, j, a);
    }
}

/// Trailing whitespace back to `b` is what end-trimming removes.
proof fn lemma_trim_end_idx(s: Seq<u8>, a: int, j: int, b: int)
    requires
        0 <= a <= b <= j <= s.len(),
        forall|k: int| b <= k < j ==> is_ws(s[k]),
        b == a || !is_ws(s[b - 1]),
    ensures
        trim_ws_end(s.subrange(a, j)) == s.subrange(a, b),
    decreases j - b,
{
    if j == b {
        if b == a {
            assert(s.subrange(a, j).len() == 0);
        } else {
            assert(s.subrange(a, j).last() == s[j - 1]);
            lemma_trim_fixed(s.subrange(a, j));
        }
    } else {
        assert(s.subrange(a, j).last() == s[j - 1]);
        assert(is_ws(s[j - 1]));
        assert(s.subrange(a, j).drop_last() =~= s.subrange(a, j - 1));
        lemma_trim_end_idx(s, a, j - 1, b);
    }
}

/// Whether `b` is an ASCII whitespace byte.
fn ws_byte(b: u8) -> (r: bool)
    ensures
        r == is_ws(b),
{
    b == 0x09 || b == 0x0a || b == 0x0b || b == 0x0c || b == 0x0d || b == 0x20
}

/// Split a packing list into its input paths: one per line, trimmed, with
/// blank lines and `#` comments skipped.
pub fn parse_input_list(content: &Vec<u8>) -> (r: Vec<Vec<u8>>)
    ensures
        name_views(r@) == parse_list_spec(content@, 0),
{
    let ghost s: Seq<u8> = content@;
    let n: usize = content.len();
    let mut out: Vec<Vec<u8>> = Vec::new();
    let mut from: usize = 0;
    while from < n
        invariant
            from <= n,
            n == s.len(),
            content@ == s,
            name_views(out@) + parse_list_spec(s, from as int) =~= parse_list_spec(s, 0),
        decreases n - from,
    {
        // find the end of the line
        let mut j: usize = from;
        while j < n && content[j] != 10
            invariant
                from <= j <= n,
                n == s.len(),
                content@ == s,
                forall|k: int| from as int <= k < j as int ==> s[k] != 10,
            decreases n - j,
        {
            j = j + 1;
        }
        proof {
            lemma_line_len_char(s, from as int, j as int);
        }

        // trim both ends
        let mut a: usize = from;
        while a < j && ws_byte(content[a])
            invariant
                from <= a <= j <= n,
                n == s.len(),
                content@ == s,
                forall|k: int| from as int <= k < a as int ==> is_ws(s[k]),
            decreases j - a,
        {
            a = a + 1;
        }
        let mut b: usize = j;
        while b > a && ws_byte(content[b - 1])
            invariant
                a <= b <= j <= n,
                n == s.len(),
                content@ == s,
                forall|k: int| b as int <= k < j as int ==> is_ws(s[k]),
            decreases b,
        {
            b = b - 1;
        }
        proof {
            lemma_trim_start_idx(s, from as int, j as int, a as int);
            lemma_trim_end_idx(s, a as int, j as int, b as int);
            assert(trim_line(s.subrange(from as int, j as int)) == s.subrange(a as int, b as int));
        }

        // keep the line unless it is blank or a comment
        if b > a && content[a] != 35 {
            let line: Vec<u8> = slice_to_vec(slice_subrange(content.as_slice(), a, b));
            proof {
                assert(s.subrange(a as int, b as int)[0] == s[a as int]);
                assert(name_views(out@.push(line)) =~= name_views(out@).push(line@));
                assert(name_views(out@).push(line@) + parse_list_spec(s, j as int + 1)
                    =~= name_views(out@) + parse_list_spec(s, from as int));
            }
            out.push(line);
        } else {
            proof {
                if b > a {
                    assert(s.subrange(a as int, b as int)[0] == s[a as int]);
                }
                assert(name_views(out@) + parse_list_spec(s, j as int + 1) =~= name_views(out@)
                    + parse_list_spec(s, from as int));
            }
        }
        proof {
            if j == n {
                assert(parse_list_spec(s, j as int + 1) =~= Seq::<Seq<u8>>::empty());
                assert(parse_list_spec(s, n as int) =~= Seq::<Seq<u8>>::empty());
            }
        }
        if j < n {
            from = j + 1;
        } else {
            from = n;
        }
    }
    proof {
        assert(parse_list_spec(s, from as int) =~= Seq::<Seq<u8>>::empty());
        assert(name_views(out@) =~= parse_list_spec(s, 0));
    }
    out
}

} // verus!
