//! Byte-string primitives shared by every pass.
//!
//! Page text is modelled as ASCII byte sequences (`Vec<u8>` in executable
//! code, `Seq<u8>` in specifications). Every helper here has an exact
//! specification-level twin, so the passes can state their contracts purely
//! over `Seq<u8>`.

use vstd::prelude::*;
use vstd::slice::slice_subrange;
use vstd::slice::slice_to_vec;
use vstd::string::StrSliceExecFns;

verus! {

/// Lower-case image of one byte (ASCII letters only; other bytes unchanged).
pub open spec fn lower_byte(b: u8) -> u8 {
    if 65 <= b && b <= 90 {
        (b + 32) as u8
    } else {
        b
    }
}

/// Lower-case image of a whole byte sequence.
pub open spec fn lower(s: Seq<u8>) -> Seq<u8> {
    s.map_values(|b: u8| lower_byte(b))
}

pub open spec fn is_upper_alpha(b: u8) -> bool {
    65 <= b && b <= 90
}

pub open spec fn is_lower_alpha(b: u8) -> bool {
    97 <= b && b <= 122
}

pub open spec fn is_alpha(b: u8) -> bool {
    is_upper_alpha(b) || is_lower_alpha(b)
}

pub open spec fn is_digit(b: u8) -> bool {
    48 <= b && b <= 57
}

pub open spec fn is_alnum(b: u8) -> bool {
    is_alpha(b) || is_digit(b)
}

/// Whitespace: space, tab, carriage return, newline.
pub open spec fn is_space(b: u8) -> bool {
    b == 32 || b == 9 || b == 13 || b == 10
}

/// The byte sequence of an ASCII character sequence.
pub open spec fn ascii_of(s: Seq<char>) -> Seq<u8> {
    Seq::new(s.len(), |i: int| s[i] as u8)
}

/// The byte sequence of an ASCII string literal.
pub open spec fn lit(s: &str) -> Seq<u8> {
    ascii_of(s@)
}

/// Executable twin of [`lit`] for ASCII literals.
pub fn lit_bytes(s: &str) -> (v: Vec<u8>)
    requires
        vstd::string::is_ascii(s),
    ensures
        v@ == lit(s),
{
    bytes_of(s)
}

/// The views of a sequence of byte vectors.
pub open spec fn views(v: Seq<Vec<u8>>) -> Seq<Seq<u8>> {
    Seq::new(v.len(), |i: int| v[i]@)
}

/// The view of an optional byte vector.
pub open spec fn opt_view(o: Option<Vec<u8>>) -> Option<Seq<u8>> {
    match o {
        Some(v) => Some(v@),
        None => None,
    }
}

/// `n` occurs at position `i` of `h`.
pub open spec fn matches_at(h: Seq<u8>, n: Seq<u8>, i: int) -> bool {
    0 <= i && i + n.len() <= h.len() && h.subrange(i, i + n.len()) == n
}

/// `n` occurs somewhere in `h`.
pub open spec fn contains_seq(h: Seq<u8>, n: Seq<u8>) -> bool {
    exists|i: int| matches_at(h, n, i)
}

/// `p` is a prefix of `s`.
pub open spec fn is_prefix(p: Seq<u8>, s: Seq<u8>) -> bool {
    p.len() <= s.len() && s.take(p.len() as int) == p
}

/// Index of the first occurrence of `sep` in `s`; `s.len()` when absent.
pub open spec fn first_byte_idx(s: Seq<u8>, sep: u8) -> int
    decreases s.len(),
{
    if s.len() == 0 {
        0
    } else if s[0] == sep {
        0
    } else {
        1 + first_byte_idx(s.drop_first(), sep)
    }
}

pub proof fn lemma_first_byte_idx(s: Seq<u8>, sep: u8)
    ensures
        0 <= first_byte_idx(s, sep) <= s.len(),
        first_byte_idx(s, sep) < s.len() ==> s[first_byte_idx(s, sep)] == sep,
        forall|j: int| 0 <= j < first_byte_idx(s, sep) ==> s[j] != sep,
    decreases s.len(),
{
    if s.len() == 0 {
    } else if s[0] == sep {
    } else {
        lemma_first_byte_idx(s.drop_first(), sep);
        assert forall|j: int| 0 <= j < first_byte_idx(s, sep) implies s[j] != sep by {
            if j > 0 {
                assert(s.drop_first()[j - 1] != sep);
            }
        }
    }
}

/// Splitting at every occurrence of `sep`; always yields at least one part.
pub open spec fn split_seq(s: Seq<u8>, sep: u8) -> Seq<Seq<u8>>
    decreases s.len(),
{
    let i = first_byte_idx(s, sep);
    if i < 0 || i >= s.len() {
        seq![s]
    } else {
        seq![s.take(i)] + split_seq(s.skip(i + 1), sep)
    }
}

/// Leading whitespace removed.
pub open spec fn trim_front(s: Seq<u8>) -> Seq<u8>
    decreases s.len(),
{
    if s.len() > 0 && is_space(s[0]) {
        trim_front(s.drop_first())
    } else {
        s
    }
}

/// Trailing whitespace removed.
pub open spec fn trim_back(s: Seq<u8>) -> Seq<u8>
    decreases s.len(),
{
    if s.len() > 0 && is_space(s.last()) {
        trim_back(s.drop_last())
    } else {
        s
    }
}

/// Leading and trailing whitespace removed.
pub open spec fn trim(s: Seq<u8>) -> Seq<u8> {
    trim_back(trim_front(s))
}

/// Every whitespace byte replaced by a plain space.
pub open spec fn space_norm(s: Seq<u8>) -> Seq<u8> {
    s.map_values(|b: u8| if is_space(b) { 32u8 } else { b })
}

/// The non-empty elements of `ps`, in order.
pub open spec fn nonempties(ps: Seq<Seq<u8>>) -> Seq<Seq<u8>>
    decreases ps.len(),
{
    if ps.len() == 0 {
        Seq::empty()
    } else if ps[0].len() > 0 {
        seq![ps[0]] + nonempties(ps.drop_first())
    } else {
        nonempties(ps.drop_first())
    }
}

/// The whitespace-separated words of `s`, in order, without empties.
pub open spec fn tokens_of(s: Seq<u8>) -> Seq<Seq<u8>> {
    nonempties(split_seq(space_norm(s), 32))
}

/// The parts joined with `sep` between consecutive parts.
pub open spec fn join_seq(ps: Seq<Seq<u8>>, sep: Seq<u8>) -> Seq<u8>
    decreases ps.len(),
{
    if ps.len() == 0 {
        Seq::empty()
    } else if ps.len() == 1 {
        ps[0]
    } else {
        ps[0] + sep + join_seq(ps.drop_first(), sep)
    }
}

/// `s` is made of digits only (and is non-empty).
pub open spec fn all_digits(s: Seq<u8>) -> bool {
    s.len() > 0 && forall|i: int| 0 <= i < s.len() ==> is_digit(s[i])
}

/// The decimal value of a digit string.
pub open spec fn digits_val(s: Seq<u8>) -> int
    decreases s.len(),
{
    if s.len() == 0 {
        0
    } else {
        digits_val(s.drop_last()) * 10 + (s.last() - 48)
    }
}

pub open spec fn pow10(n: nat) -> int
    decreases n,
{
    if n == 0 {
        1
    } else {
        10 * pow10((n - 1) as nat)
    }
}

pub proof fn lemma_digits_val_bound(s: Seq<u8>)
    requires
        forall|i: int| 0 <= i < s.len() ==> is_digit(s[i]),
    ensures
        0 <= digits_val(s) < pow10(s.len() as nat),
    decreases s.len(),
{
    if s.len() > 0 {
        lemma_digits_val_bound(s.drop_last());
        assert(is_digit(s[s.len() - 1]));
    }
}

/// Turns an ASCII string slice into its byte vector.
pub fn bytes_of(s: &str) -> (v: Vec<u8>)
    requires
        vstd::string::is_ascii(s),
    ensures
        v@ == ascii_of(s@),
{
    let v = s.as_bytes_vec();
    proof {
        vstd::string::is_ascii_spec_bytes(s);
        assert(v@ =~= ascii_of(s@));
    }
    v
}

/// Lower-cases a byte string.
pub fn lower_bytes(s: &[u8]) -> (r: Vec<u8>)
    ensures
        r@ == lower(s@),
{
    let mut r: Vec<u8> = Vec::new();
    let mut i: usize = 0;
    while i < s.len()
        invariant
            i <= s@.len(),
            r@ == lower(s@.take(i as int)),
        decreases s@.len() - i,
    {
        let b = s[i];
        if 65 <= b && b <= 90 {
            r.push(b + 32);
        } else {
            r.push(b);
        }
        i = i + 1;
        proof {
            assert(r@ =~= lower(s@.take(i as int)));
        }
    }
    proof {
        assert(s@.take(s@.len() as int) =~= s@);
    }
    r
}

/// Replaces every whitespace byte by a plain space.
pub fn space_norm_bytes(s: &[u8]) -> (r: Vec<u8>)
    ensures
        r@ == space_norm(s@),
{
    let mut r: Vec<u8> = Vec::new();
    let mut i: usize = 0;
    while i < s.len()
        invariant
            i <= s@.len(),
            r@ == space_norm(s@.take(i as int)),
        decreases s@.len() - i,
    {
        let b = s[i];
        if b == 32 || b == 9 || b == 13 || b == 10 {
            r.push(32);
        } else {
            r.push(b);
        }
        i = i + 1;
        proof {
            assert(r@ =~= space_norm(s@.take(i as int)));
        }
    }
    proof {
        assert(s@.take(s@.len() as int) =~= s@);
    }
    r
}

/// Appends all of `src` to `dst`.
pub fn append_bytes(dst: &mut Vec<u8>, src: &[u8])
    ensures
        final(dst)@ == old(dst)@ + src@,
{
    let mut i: usize = 0;
    while i < src.len()
        invariant
            i <= src@.len(),
            dst@ == old(dst)@ + src@.take(i as int),
        decreases src@.len() - i,
    {
        dst.push(src[i]);
        i = i + 1;
        proof {
            assert(dst@ =~= old(dst)@ + src@.take(i as int));
        }
    }
    proof {
        assert(old(dst)@ + src@.take(src@.len() as int) =~= old(dst)@ + src@);
    }
}

/// `n` occurs at position `i` of `h`?
pub fn prefix_at(h: &[u8], n: &[u8], i: usize) -> (r: bool)
    requires
        i + n@.len() <= h@.len(),
    ensures
        r == matches_at(h@, n@, i as int),
{
    let h_len = h.len();
    let mut k: usize = 0;
    while k < n.len()
        invariant
            i + n@.len() <= h@.len(),
            h@.len() == h_len,
            k <= n@.len(),
            forall|j: int| 0 <= j < k ==> h@[i + j] == n@[j],
        decreases n@.len() - k,
    {
        if h[i + k] != n[k] {
            proof {
                if matches_at(h@, n@, i as int) {
                    assert(h@.subrange(i as int, i + n@.len())[k as int] == n@[k as int]);
                }
            }
            return false;
        }
        k = k + 1;
    }
    proof {
        assert(h@.subrange(i as int, i + n@.len()) =~= n@);
    }
    true
}

/// `n` occurs somewhere in `h`?
pub fn contains_sub(h: &[u8], n: &[u8]) -> (r: bool)
    ensures
        r == contains_seq(h@, n@),
{
    if n.len() > h.len() {
        return false;
    }
    if n.len() == 0 {
        proof {
            assert(h@.subrange(0, 0) =~= n@);
            assert(matches_at(h@, n@, 0));
        }
        return true;
    }
    let h_len = h.len();
    let mut i: usize = 0;
    while i <= h.len() - n.len()
        invariant
            1 <= n@.len() <= h@.len(),
            h@.len() == h_len,
            i <= h@.len() - n@.len() + 1,
            forall|j: int| 0 <= j < i ==> !matches_at(h@, n@, j),
        decreases h@.len() - n@.len() + 1 - i,
    {
        if prefix_at(h, n, i) {
            return true;
        }
        i = i + 1;
    }
    false
}

/// The two byte strings are equal?
pub fn bytes_eq(a: &[u8], b: &[u8]) -> (r: bool)
    ensures
        r == (a@ == b@),
{
    if a.len() != b.len() {
        return false;
    }
    let mut i: usize = 0;
    while i < a.len()
        invariant
            a@.len() == b@.len(),
            i <= a@.len(),
            forall|j: int| 0 <= j < i ==> a@[j] == b@[j],
        decreases a@.len() - i,
    {
        if a[i] != b[i] {
            return false;
        }
        i = i + 1;
    }
    proof {
        assert(a@ =~= b@);
    }
    true
}

/// The two byte strings are equal up to ASCII case?
pub fn eq_ci(a: &[u8], b: &[u8]) -> (r: bool)
    ensures
        r == (lower(a@) == lower(b@)),
{
    let la = lower_bytes(a);
    let lb = lower_bytes(b);
    bytes_eq(la.as_slice(), lb.as_slice())
}

/// `p` is a prefix of `s`?
pub fn starts_with(s: &[u8], p: &[u8]) -> (r: bool)
    ensures
        r == is_prefix(p@, s@),
{
    if p.len() > s.len() {
        return false;
    }
    let r = prefix_at(s, p, 0);
    proof {
        assert(s@.subrange(0, p@.len() as int) == s@.take(p@.len() as int));
    }
    r
}

/// Index of the first occurrence of `sep` in `s`; `s.len()` when absent.
pub fn find_byte(s: &[u8], sep: u8) -> (i: usize)
    ensures
        i == first_byte_idx(s@, sep),
        i <= s@.len(),
{
    proof {
        lemma_first_byte_idx(s@, sep);
    }
    let mut i: usize = 0;
    while i < s.len()
        invariant
            i <= s@.len(),
            forall|j: int| 0 <= j < i ==> s@[j] != sep,
            0 <= first_byte_idx(s@, sep) <= s@.len(),
            first_byte_idx(s@, sep) < s@.len() ==> s@[first_byte_idx(s@, sep)] == sep,
            forall|j: int| 0 <= j < first_byte_idx(s@, sep) ==> s@[j] != sep,
        decreases s@.len() - i,
    {
        if s[i] == sep {
            proof {
                if first_byte_idx(s@, sep) < i {
                    assert(s@[first_byte_idx(s@, sep)] == sep);
                }
            }
            return i;
        }
        i = i + 1;
    }
    s.len()
}

/// Splits `s` at every occurrence of `sep`.
pub fn split_on(s: &[u8], sep: u8) -> (r: Vec<Vec<u8>>)
    ensures
        views(r@) == split_seq(s@, sep),
        r@.len() >= 1,
    decreases s@.len(),
{
    let i = find_byte(s, sep);
    if i == s.len() {
        let mut r: Vec<Vec<u8>> = Vec::new();
        r.push(slice_to_vec(s));
        proof {
            assert(views(r@) =~= split_seq(s@, sep));
        }
        r
    } else {
        let head = slice_to_vec(slice_subrange(s, 0, i));
        let rest = slice_subrange(s, i + 1, s.len());
        proof {
            assert(rest@ =~= s@.skip(i + 1));
            assert(head@ =~= s@.take(i as int));
        }
        let mut r = split_on(rest, sep);
        let ghost r0 = r@;
        r.insert(0, head);
        proof {
            assert(views(r@) =~= seq![head@] + views(r0));
            assert(views(r@) =~= split_seq(s@, sep));
        }
        r
    }
}

/// Removes leading whitespace.
pub fn trim_front_bytes(s: &[u8]) -> (r: &[u8])
    ensures
        r@ == trim_front(s@),
    decreases s@.len(),
{
    if s.len() > 0 {
        let b = s[0];
        if b == 32 || b == 9 || b == 13 || b == 10 {
            let rest = slice_subrange(s, 1, s.len());
            proof {
                assert(rest@ =~= s@.drop_first());
            }
            return trim_front_bytes(rest);
        }
    }
    s
}

/// Removes trailing whitespace.
pub fn trim_back_bytes(s: &[u8]) -> (r: &[u8])
    ensures
        r@ == trim_back(s@),
    decreases s@.len(),
{
    if s.len() > 0 {
        let b = s[s.len() - 1];
        if b == 32 || b == 9 || b == 13 || b == 10 {
            let rest = slice_subrange(s, 0, s.len() - 1);
            proof {
                assert(rest@ =~= s@.drop_last());
            }
            return trim_back_bytes(rest);
        }
    }
    s
}

/// Removes leading and trailing whitespace.
pub fn trim_bytes(s: &[u8]) -> (r: Vec<u8>)
    ensures
        r@ == trim(s@),
{
    slice_to_vec(trim_back_bytes(trim_front_bytes(s)))
}

/// The whitespace-separated words of `s`, without empties.
pub fn tokens(s: &[u8]) -> (r: Vec<Vec<u8>>)
    ensures
        views(r@) == tokens_of(s@),
{
    let norm = space_norm_bytes(s);
    let parts = split_on(norm.as_slice(), 32);
    let ghost pv = views(parts@);
    let mut r: Vec<Vec<u8>> = Vec::new();
    proof {
        assert(pv.skip(0) =~= pv);
        assert(views(r@) + nonempties(pv) =~= nonempties(pv));
    }
    let mut i: usize = 0;
    while i < parts.len()
        invariant
            i <= parts@.len(),
            pv == views(parts@),
            nonempties(pv) == views(r@) + nonempties(pv.skip(i as int)),
        decreases parts@.len() - i,
    {
        proof {
            assert(pv.skip(i as int)[0] == parts@[i as int]@);
            assert(pv.skip(i as int).drop_first() =~= pv.skip(i + 1));
        }
        if parts[i].len() > 0 {
            let part = slice_to_vec(parts[i].as_slice());
            let ghost r0 = r@;
            r.push(part);
            proof {
                assert(views(r@) =~= views(r0) + seq![pv.skip(i as int)[0]]);
                assert(nonempties(pv.skip(i as int)) == seq![pv.skip(i as int)[0]] + nonempties(
                    pv.skip(i + 1),
                ));
                assert(views(r0) + nonempties(pv.skip(i as int)) =~= views(r@) + nonempties(
                    pv.skip(i + 1),
                ));
            }
        } else {
            proof {
                assert(nonempties(pv.skip(i as int)) == nonempties(pv.skip(i + 1)));
            }
        }
        i = i + 1;
    }
    proof {
        assert(pv.skip(pv.len() as int) =~= Seq::<Seq<u8>>::empty());
        assert(nonempties(Seq::<Seq<u8>>::empty()) == Seq::<Seq<u8>>::empty());
        assert(views(r@) =~= nonempties(pv));
    }
    r
}

/// Joins the parts with `sep` between consecutive parts.
pub fn join_with(parts: &Vec<Vec<u8>>, sep: &[u8]) -> (r: Vec<u8>)
    ensures
        r@ == join_seq(views(parts@), sep@),
{
    let ghost pv = views(parts@);
    let mut r: Vec<u8> = Vec::new();
    proof {
        if parts@.len() == 0 {
            assert(join_seq(pv, sep@) == Seq::<u8>::empty());
        }
    }
    let mut i: usize = 0;
    while i < parts.len()
        invariant
            i <= parts@.len(),
            pv == views(parts@),
            i == 0 ==> r@ == Seq::<u8>::empty(),
            1 <= i < parts@.len() ==> join_seq(pv, sep@) == r@ + sep@ + join_seq(
                pv.skip(i as int),
                sep@,
            ),
            i >= parts@.len() ==> join_seq(pv, sep@) == r@,
        decreases parts@.len() - i,
    {
        proof {
            assert(pv.skip(i as int)[0] == parts@[i as int]@);
            assert(pv.skip(i as int).drop_first() =~= pv.skip(i + 1));
        }
        let ghost r0 = r@;
        if i > 0 {
            append_bytes(&mut r, sep);
        }
        append_bytes(&mut r, parts[i].as_slice());
        proof {
            if i == 0 {
                assert(pv.skip(0) =~= pv);
                assert(r@ =~= pv[0]);
                if parts@.len() > 1 {
                    assert(pv.drop_first() =~= pv.skip(1));
                    assert(join_seq(pv, sep@) == pv[0] + sep@ + join_seq(pv.skip(1), sep@));
                } else {
                    assert(join_seq(pv, sep@) == pv[0]);
                }
            } else {
                assert(r@ =~= r0 + sep@ + pv[i as int]);
                if i + 1 < parts@.len() {
                    assert(join_seq(pv.skip(i as int), sep@) == pv[i as int] + sep@ + join_seq(
                        pv.skip(i + 1),
                        sep@,
                    ));
                    assert(join_seq(pv, sep@) =~= r@ + sep@ + join_seq(pv.skip(i + 1), sep@));
                } else {
                    assert(join_seq(pv.skip(i as int), sep@) == pv[i as int]);
                    assert(join_seq(pv, sep@) =~= r@);
                }
            }
        }
        i = i + 1;
    }
    r
}

/// Parses a decimal number of at most 8 digits.
pub fn parse_num(s: &[u8]) -> (r: Option<u32>)
    ensures
        r is Some <==> (all_digits(s@) && s@.len() <= 8),
        r is Some ==> r.unwrap() == digits_val(s@),
{
    if s.len() == 0 || s.len() > 8 {
        return None;
    }
    let mut val: u32 = 0;
    let mut i: usize = 0;
    while i < s.len()
        invariant
            i <= s@.len(),
            s@.len() <= 8,
            forall|j: int| 0 <= j < i ==> is_digit(s@[j]),
            val == digits_val(s@.take(i as int)),
            val < pow10(i as nat),
        decreases s@.len() - i,
    {
        let b = s[i];
        if b < 48 || b > 57 {
            return None;
        }
        proof {
            assert(pow10(i as nat) <= pow10(7)) by {
                lemma_pow10_mono(i as nat, 7);
            }
            assert(pow10(7) == 10000000) by {
                lemma_pow10_val();
            }
            assert(s@.take(i + 1).drop_last() =~= s@.take(i as int));
        }
        val = val * 10 + ((b - 48) as u32);
        i = i + 1;
    }
    proof {
        assert(s@.take(s@.len() as int) =~= s@);
    }
    Some(val)
}

/// The value of a labelled line `label: value`, trimmed; `None` when the
/// line does not carry that label.
pub open spec fn line_value_spec(line: Seq<u8>, label: Seq<u8>) -> Option<Seq<u8>> {
    if is_prefix(label + seq![58u8], line) {
        Some(trim(line.skip(label.len() + 1 as int)))
    } else {
        None
    }
}

/// The first non-empty value of a labelled line among `lines`.
pub open spec fn field_value_in(lines: Seq<Seq<u8>>, label: Seq<u8>) -> Option<Seq<u8>>
    decreases lines.len(),
{
    if lines.len() == 0 {
        None
    } else {
        match line_value_spec(lines[0], label) {
            Some(v) => if v.len() > 0 {
                Some(v)
            } else {
                field_value_in(lines.drop_first(), label)
            },
            None => field_value_in(lines.drop_first(), label),
        }
    }
}

/// The first non-empty value of the labelled field in a text blob.
pub open spec fn field_value_spec(text: Seq<u8>, label: Seq<u8>) -> Option<Seq<u8>> {
    field_value_in(split_seq(text, 10), label)
}

/// All non-empty values of the labelled field among `lines`, in order.
pub open spec fn field_values_in(lines: Seq<Seq<u8>>, label: Seq<u8>) -> Seq<Seq<u8>>
    decreases lines.len(),
{
    if lines.len() == 0 {
        Seq::empty()
    } else {
        let rest = field_values_in(lines.drop_first(), label);
        match line_value_spec(lines[0], label) {
            Some(v) => if v.len() > 0 {
                seq![v] + rest
            } else {
                rest
            },
            None => rest,
        }
    }
}

/// All non-empty values of the labelled field in a text blob, in order.
pub open spec fn field_values_spec(text: Seq<u8>, label: Seq<u8>) -> Seq<Seq<u8>> {
    field_values_in(split_seq(text, 10), label)
}

/// Reads a labelled line `label: value`.
pub fn line_value(line: &[u8], label: &[u8]) -> (r: Option<Vec<u8>>)
    ensures
        opt_view(r) == line_value_spec(line@, label@),
{
    if label.len() < line.len() {
        if prefix_at(line, label, 0) {
            if line[label.len()] == 58 {
                let v = trim_bytes(slice_subrange(line, label.len() + 1, line.len()));
                proof {
                    assert((label@ + seq![58u8]) =~= line@.take(label@.len() + 1 as int));
                    assert(line@.skip(label@.len() + 1 as int) =~= line@.subrange(
                        label@.len() + 1 as int,
                        line@.len() as int,
                    ));
                }
                return Some(v);
            }
        }
    }
    proof {
        if is_prefix(label@ + seq![58u8], line@) {
            assert(line@.take(label@.len() as int) =~= (label@ + seq![58u8]).take(
                label@.len() as int,
            ));
            assert((label@ + seq![58u8]).take(label@.len() as int) =~= label@);
            assert(line@.subrange(0, label@.len() as int) == line@.take(label@.len() as int));
            assert((label@ + seq![58u8])[label@.len() as int] == 58u8);
        }
    }
    None
}

/// Reads the first non-empty value of the labelled field in a text blob.
pub fn field_value(text: &[u8], label: &[u8]) -> (r: Option<Vec<u8>>)
    ensures
        opt_view(r) == field_value_spec(text@, label@),
{
    let lines = split_on(text, 10);
    let ghost lv = views(lines@);
    proof {
        assert(lv.skip(0) =~= lv);
    }
    let mut i: usize = 0;
    while i < lines.len()
        invariant
            i <= lines@.len(),
            lv == views(lines@),
            lv == split_seq(text@, 10),
            field_value_in(lv, label@) == field_value_in(lv.skip(i as int), label@),
        decreases lines@.len() - i,
    {
        proof {
            assert(lv.skip(i as int)[0] == lines@[i as int]@);
            assert(lv.skip(i as int).drop_first() =~= lv.skip(i + 1));
        }
        let v = line_value(lines[i].as_slice(), label);
        match v {
            Some(val) => {
                if val.len() > 0 {
                    proof {
                        assert(field_value_in(lv.skip(i as int), label@) == Some(val@));
                    }
                    return Some(val);
                }
            },
            None => {},
        }
        i = i + 1;
    }
    proof {
        assert(lv.skip(lv.len() as int) =~= Seq::<Seq<u8>>::empty());
    }
    None
}

/// Reads all non-empty values of the labelled field in a text blob.
pub fn field_values(text: &[u8], label: &[u8]) -> (r: Vec<Vec<u8>>)
    ensures
        views(r@) == field_values_spec(text@, label@),
{
    let lines = split_on(text, 10);
    let ghost lv = views(lines@);
    let mut r: Vec<Vec<u8>> = Vec::new();
    proof {
        assert(lv.skip(0) =~= lv);
        assert(views(r@) + field_values_in(lv, label@) =~= field_values_in(lv, label@));
    }
    let mut i: usize = 0;
    while i < lines.len()
        invariant
            i <= lines@.len(),
            lv == views(lines@),
            field_values_in(lv, label@) == views(r@) + field_values_in(lv.skip(i as int), label@),
        decreases lines@.len() - i,
    {
        proof {
            assert(lv.skip(i as int)[0] == lines@[i as int]@);
            assert(lv.skip(i as int).drop_first() =~= lv.skip(i + 1));
        }
        let v = line_value(lines[i].as_slice(), label);
        match v {
            Some(val) => {
                if val.len() > 0 {
                    let ghost r0 = r@;
                    let ghost vv = val@;
                    r.push(val);
                    proof {
                        assert(views(r@) =~= views(r0) + seq![vv]);
                        assert(field_values_in(lv.skip(i as int), label@) == seq![vv]
                            + field_values_in(lv.skip(i + 1), label@));
                        assert(views(r0) + field_values_in(lv.skip(i as int), label@) =~= views(r@)
                            + field_values_in(lv.skip(i + 1), label@));
                    }
                }
            },
            None => {},
        }
        i = i + 1;
    }
    proof {
        assert(lv.skip(lv.len() as int) =~= Seq::<Seq<u8>>::empty());
    }
    r
}

proof fn lemma_pow10_pos(n: nat)
    ensures
        pow10(n) >= 1,
    decreases n,
{
    if n > 0 {
        lemma_pow10_pos((n - 1) as nat);
    }
}

proof fn lemma_pow10_mono(a: nat, b: nat)
    requires
        a <= b,
    ensures
        1 <= pow10(a) <= pow10(b),
    decreases b,
{
    lemma_pow10_pos(a);
    if a < b {
        lemma_pow10_mono(a, (b - 1) as nat);
        lemma_pow10_pos((b - 1) as nat);
        assert(pow10(b) == 10 * pow10((b - 1) as nat));
    }
}

proof fn lemma_pow10_val()
    ensures
        pow10(7) == 10000000,
{
    assert(pow10(0) == 1);
    assert(pow10(1) == 10);
    assert(pow10(2) == 100);
    assert(pow10(3) == 1000);
    assert(pow10(4) == 10000);
    assert(pow10(5) == 100000);
    assert(pow10(6) == 1000000);
    assert(pow10(7) == 10000000);
}

} // verus!
