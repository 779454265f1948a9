//! Character-sequence helpers for symbol-name matching and for the plain
//! emitter: case folding, substring search, and the fixed patterns the
//! pipeline recognises.

use vstd::prelude::*;

verus! {

/// What `str::to_lowercase` returns for a given character sequence.  The
/// full Unicode folding rules are not restated here; the name only records
/// that the result is a function of the characters alone.
pub uninterp spec fn lower_of(s: Seq<char>) -> Seq<char>;

/// Relies on `str::to_lowercase`: the result depends on the characters alone.
#[verifier::external_body]
pub(crate) fn lowercase(s: &str) -> (r: String)
    ensures
        r@ == lower_of(s@),
{
    s.to_lowercase()
}

/// The characters of `s`, as a vector.
pub fn chars_of(s: &str) -> (r: Vec<char>)
    ensures
        r@ == s@,
{
    let n = s.unicode_len();
    let mut out: Vec<char> = Vec::new();
    let mut k: usize = 0;
    while k < n
        invariant
            n == s@.len(),
            k <= n,
            out@ == s@.subrange(0, k as int),
        decreases n - k,
    {
        out.push(s.get_char(k));
        proof {
            assert(out@ =~= s@.subrange(0, k + 1));
        }
        k = k + 1;
    }
    proof {
        assert(out@ =~= s@);
    }
    out
}

/// `needle` occurs in `hay` as a contiguous subsequence.
pub open spec fn contains_seq(hay: Seq<char>, needle: Seq<char>) -> bool {
    exists|i: int|
        0 <= i && i + needle.len() <= hay.len() && #[trigger] hay.subrange(
            i,
            i + needle.len(),
        ) == needle
}

/// Substring search, with the semantics of `str::contains`.
pub fn contains_chars(hay: &Vec<char>, needle: &Vec<char>) -> (r: bool)
    ensures
        r == contains_seq(hay@, needle@),
{
    if needle.len() > hay.len() {
        return false;
    }
    if needle.len() == 0 {
        proof {
            let ghost nl = needle@.len() as int;
            assert(hay@.subrange(0, 0 + nl) =~= needle@);
        }
        return true;
    }
    let mut i: usize = 0;
    while i <= hay.len() - needle.len()
        invariant
            1 <= needle@.len() <= hay@.len(),
            i <= hay@.len() - needle@.len() + 1,
            forall|p: int|
                0 <= p < i ==> #[trigger] hay@.subrange(p, p + needle@.len())
                    != needle@,
        decreases hay@.len() - i,
    {
        proof {
            assert(i + needle@.len() <= hay@.len());
        }
        let mut j: usize = 0;
        let mut mismatch = false;
        while j < needle.len()
            invariant
                needle@.len() <= hay@.len(),
                i + needle@.len() <= hay@.len(),
                j <= needle@.len(),
                !mismatch ==> forall|q: int|
                    0 <= q < j ==> hay@[i + q] == needle@[q],
                mismatch ==> hay@.subrange(i as int, i + needle@.len()) != needle@,
            decreases needle@.len() - j,
        {
            proof {
                assert(i + j < hay.len());
            }
            if hay[i + j] != needle[j] {
                proof {
                    assert(hay@.subrange(i as int, i + needle@.len())[j as int]
                        != needle@[j as int]);
                }
                mismatch = true;
                j = needle.len();
            } else {
                j = j + 1;
            }
        }
        if !mismatch {
            proof {
                assert(hay@.subrange(i as int, i + needle@.len()) =~= needle@);
            }
            return true;
        }
        i = i + 1;
    }
    proof {
        assert(forall|p: int|
            0 <= p && p + needle@.len() <= hay@.len()
                ==> #[trigger] hay@.subrange(p, p + needle@.len()) != needle@);
    }
    false
}

/// `s` with every occurrence of `vec` removed, scanning left to right
/// without overlap: the semantics of `str::replace("vec", "")`.
pub open spec fn remove_vec_seq(s: Seq<char>) -> Seq<char>
    decreases s.len(),
{
    if s.len() >= 3 && s[0] == 'v' && s[1] == 'e' && s[2] == 'c' {
        remove_vec_seq(s.skip(3))
    } else if s.len() == 0 {
        s
    } else {
        seq![s[0]] + remove_vec_seq(s.skip(1))
    }
}

/// Remove every occurrence of `vec`, scanning left to right.
pub fn remove_vec(s: &Vec<char>) -> (r: Vec<char>)
    ensures
        r@ == remove_vec_seq(s@),
{
    let mut out: Vec<char> = Vec::new();
    let mut i: usize = 0;
    proof {
        assert(s@.skip(0) =~= s@);
        assert(Seq::<char>::empty() + remove_vec_seq(s@) =~= remove_vec_seq(s@));
    }
    while i < s.len()
        invariant
            i <= s@.len(),
            remove_vec_seq(s@) == out@ + remove_vec_seq(s@.skip(i as int)),
        decreases s@.len() - i,
    {
        let ghost pre = s@.skip(i as int);
        if s.len() - i >= 3 && s[i] == 'v' && s[i + 1] == 'e' && s[i + 2] == 'c' {
            proof {
                assert(pre.len() >= 3);
                assert(pre[0] == 'v' && pre[1] == 'e' && pre[2] == 'c');
                assert(pre.skip(3) =~= s@.skip(i + 3));
            }
            i = i + 3;
        } else {
            proof {
                assert(pre.len() > 0);
                if pre.len() >= 3 && pre[0] == 'v' && pre[1] == 'e' && pre[2] == 'c' {
                    assert(s@[i as int] == 'v' && s@[i + 1] == 'e' && s@[i + 2] == 'c');
                    assert(false);
                }
                assert(remove_vec_seq(pre) == seq![pre[0]] + remove_vec_seq(pre.skip(1)));
                assert(pre.skip(1) =~= s@.skip(i + 1));
                assert(out@.push(s@[i as int]) =~= out@ + seq![pre[0]]);
                assert((out@ + seq![pre[0]]) + remove_vec_seq(s@.skip(i + 1))
                    =~= out@ + (seq![pre[0]] + remove_vec_seq(s@.skip(i + 1))));
            }
            out.push(s[i]);
            i = i + 1;
        }
    }
    proof {
        assert(s@.skip(s@.len() as int) =~= Seq::<char>::empty());
        assert(remove_vec_seq(s@.skip(s@.len() as int)).len() == 0);
        assert(out@ + remove_vec_seq(s@.skip(s@.len() as int)) =~= out@);
    }
    out
}

/// The characters of `nop`.
pub open spec fn is_nop_name(s: Seq<char>) -> bool {
    s.len() == 3 && s[0] == 'n' && s[1] == 'o' && s[2] == 'p'
}

/// The characters of `lea`.
pub open spec fn is_lea_name(s: Seq<char>) -> bool {
    s.len() == 3 && s[0] == 'l' && s[1] == 'e' && s[2] == 'a'
}

/// The characters of `.text`.
pub open spec fn is_text_name(s: Seq<char>) -> bool {
    s.len() == 5 && s[0] == '.' && s[1] == 't' && s[2] == 'e' && s[3] == 'x'
        && s[4] == 't'
}

pub fn name_is_nop(s: &String) -> (r: bool)
    ensures
        r == is_nop_name(s@),
{
    let t = s.as_str();
    t.unicode_len() == 3 && t.get_char(0) == 'n' && t.get_char(1) == 'o'
        && t.get_char(2) == 'p'
}

pub fn name_is_lea(s: &String) -> (r: bool)
    ensures
        r == is_lea_name(s@),
{
    let t = s.as_str();
    t.unicode_len() == 3 && t.get_char(0) == 'l' && t.get_char(1) == 'e'
        && t.get_char(2) == 'a'
}

pub fn name_is_text(s: &String) -> (r: bool)
    ensures
        r == is_text_name(s@),
{
    let t = s.as_str();
    t.unicode_len() == 5 && t.get_char(0) == '.' && t.get_char(1) == 't'
        && t.get_char(2) == 'e' && t.get_char(3) == 'x' && t.get_char(4) == 't'
}

/// An ASCII lower-case letter.
pub open spec fn is_lower_alpha(c: char) -> bool {
    'a' <= c && c <= 'z'
}

/// The operand shape of the MSVC non-destructive NOP: a register pair
/// `Xyy, dword ptr [Xyy]` where each `X` is `r` or `e` and the two-letter
/// register name repeats inside the brackets.
pub open spec fn is_msvc_nop_operand(s: Seq<char>) -> bool {
    s.len() == 20 && (s[0] == 'r' || s[0] == 'e') && is_lower_alpha(s[1])
        && is_lower_alpha(s[2]) && s[3] == ',' && s[4] == ' ' && s[5] == 'd'
        && s[6] == 'w' && s[7] == 'o' && s[8] == 'r' && s[9] == 'd' && s[10] == ' '
        && s[11] == 'p' && s[12] == 't' && s[13] == 'r' && s[14] == ' '
        && s[15] == '[' && (s[16] == 'r' || s[16] == 'e') && s[17] == s[1]
        && s[18] == s[2] && s[19] == ']'
}

pub fn operand_is_msvc_nop(s: &String) -> (r: bool)
    ensures
        r == is_msvc_nop_operand(s@),
{
    let t = s.as_str();
    if t.unicode_len() != 20 {
        return false;
    }
    let c0 = t.get_char(0);
    let c1 = t.get_char(1);
    let c2 = t.get_char(2);
    let c16 = t.get_char(16);
    (c0 == 'r' || c0 == 'e') && 'a' <= c1 && c1 <= 'z' && 'a' <= c2 && c2 <= 'z'
        && t.get_char(3) == ',' && t.get_char(4) == ' ' && t.get_char(5) == 'd'
        && t.get_char(6) == 'w' && t.get_char(7) == 'o' && t.get_char(8) == 'r'
        && t.get_char(9) == 'd' && t.get_char(10) == ' ' && t.get_char(11) == 'p'
        && t.get_char(12) == 't' && t.get_char(13) == 'r' && t.get_char(14) == ' '
        && t.get_char(15) == '[' && (c16 == 'r' || c16 == 'e')
        && t.get_char(17) == c1 && t.get_char(18) == c2 && t.get_char(19) == ']'
}

} // verus!
