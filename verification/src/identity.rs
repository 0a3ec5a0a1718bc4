//! Identity pass: derives (slug, display name, canonical url) per page.
//!
//! The slug is a pure function of the url. A url has the company-profile
//! shape when it reads `http(s)://<host>/companies/<segment>...`; the slug is
//! that segment lower-cased with non-alphanumeric runs collapsed to `-` and
//! stripped at both ends. Pages of any other shape yield no slug and are
//! skipped by every pass.

use vstd::prelude::*;
use vstd::slice::slice_subrange;
use crate::text::bytes_eq;
use crate::text::first_byte_idx;
use crate::text::is_alnum;
use crate::text::is_lower_alpha;
use crate::text::is_prefix;
use crate::text::join_seq;
use crate::text::join_with;
use crate::text::lit;
use crate::text::lit_bytes;
use crate::text::lower;
use crate::text::lower_bytes;
use crate::text::nonempties;
use crate::text::opt_view;
use crate::text::space_norm;
use crate::text::split_on;
use crate::text::split_seq;
use crate::text::starts_with;
use crate::text::tokens;
use crate::text::views;

verus! {

/// The byte string after the `https://` or `http://` prefix.
pub open spec fn strip_scheme_spec(url: Seq<u8>) -> Option<Seq<u8>> {
    if is_prefix(lit("https://"), url) {
        Some(url.skip(lit("https://").len() as int))
    } else if is_prefix(lit("http://"), url) {
        Some(url.skip(lit("http://").len() as int))
    } else {
        None
    }
}

/// Strips the url scheme, or fails when the url has neither scheme.
pub fn strip_scheme(url: &[u8]) -> (r: Option<&[u8]>)
    ensures
        r matches Some(v) ==> strip_scheme_spec(url@) == Some(v@),
        r is None ==> strip_scheme_spec(url@) is None,
{
    proof {
        reveal_strlit("https://");
        reveal_strlit("http://");
    }
    let https = lit_bytes("https://");
    let http = lit_bytes("http://");
    if starts_with(url, https.as_slice()) {
        let r = slice_subrange(url, https.len(), url.len());
        proof {
            assert(r@ =~= url@.skip(lit("https://").len() as int));
        }
        Some(r)
    } else if starts_with(url, http.as_slice()) {
        let r = slice_subrange(url, http.len(), url.len());
        proof {
            assert(r@ =~= url@.skip(lit("http://").len() as int));
        }
        Some(r)
    } else {
        None
    }
}

/// Every non-alphanumeric byte replaced by a plain space.
pub open spec fn alnum_norm(s: Seq<u8>) -> Seq<u8> {
    s.map_values(|b: u8| if is_alnum(b) { b } else { 32u8 })
}

/// Slug normal form: lower-cased, non-alphanumeric runs collapsed to a
/// single `-`, with no leading or trailing `-`.
pub open spec fn normalize_slug(s: Seq<u8>) -> Seq<u8> {
    join_seq(nonempties(split_seq(alnum_norm(lower(s)), 32)), lit("-"))
}

pub fn alnum_norm_bytes(s: &[u8]) -> (r: Vec<u8>)
    ensures
        r@ == alnum_norm(s@),
{
    let mut r: Vec<u8> = Vec::new();
    let mut i: usize = 0;
    while i < s.len()
        invariant
            i <= s@.len(),
            r@ == alnum_norm(s@.take(i as int)),
        decreases s@.len() - i,
    {
        let b = s[i];
        if (65 <= b && b <= 90) || (97 <= b && b <= 122) || (48 <= b && b <= 57) {
            r.push(b);
        } else {
            r.push(32);
        }
        i = i + 1;
        proof {
            assert(r@ =~= alnum_norm(s@.take(i as int)));
        }
    }
    proof {
        assert(s@.take(s@.len() as int) =~= s@);
    }
    r
}

pub fn normalize_slug_bytes(s: &[u8]) -> (r: Vec<u8>)
    ensures
        r@ == normalize_slug(s@),
{
    let low = lower_bytes(s);
    let an = alnum_norm_bytes(low.as_slice());
    proof {
        assert(space_norm(an@) =~= an@);
    }
    let parts = tokens(an.as_slice());
    proof {
        reveal_strlit("-");
    }
    let sep = lit_bytes("-");
    join_with(&parts, sep.as_slice())
}

/// The company slug derived from a profile url; `None` when the url does
/// not have the company-profile shape or normalization leaves nothing.
pub open spec fn slug_of(url: Seq<u8>) -> Option<Seq<u8>> {
    match strip_scheme_spec(url) {
        None => None,
        Some(rest) => {
            let parts = split_seq(rest, 47);
            if parts.len() >= 3 && parts[1] == lit("companies") && parts[2].len() > 0 {
                let s = normalize_slug(parts[2]);
                if s.len() > 0 {
                    Some(s)
                } else {
                    None
                }
            } else {
                None
            }
        },
    }
}

/// Derives the slug from a page url.
pub fn slug_from_url(url: &[u8]) -> (r: Option<Vec<u8>>)
    ensures
        opt_view(r) == slug_of(url@),
{
    match strip_scheme(url) {
        None => None,
        Some(rest) => {
            let parts = split_on(rest, 47);
            proof {
                reveal_strlit("companies");
            }
            let companies = lit_bytes("companies");
            if parts.len() >= 3 {
                let second_ok = bytes_eq(parts[1].as_slice(), companies.as_slice());
                if second_ok && parts[2].len() > 0 {
                    let s = normalize_slug_bytes(parts[2].as_slice());
                    if s.len() > 0 {
                        return Some(s);
                    }
                }
            }
            None
        },
    }
}

/// A byte that can appear inside a slug word: a lower-case letter or digit.
pub open spec fn is_slug_byte(b: u8) -> bool {
    is_lower_alpha(b) || crate::text::is_digit(b)
}

proof fn lemma_no_sep_first_idx(s: Seq<u8>, sep: u8)
    requires
        forall|i: int| 0 <= i < s.len() ==> s[i] != sep,
    ensures
        first_byte_idx(s, sep) == s.len(),
{
    crate::text::lemma_first_byte_idx(s, sep);
    if first_byte_idx(s, sep) < s.len() {
        assert(s[first_byte_idx(s, sep)] == sep);
    }
}

proof fn lemma_sep_at_first_idx(a: Seq<u8>, sep: u8, b: Seq<u8>)
    requires
        forall|i: int| 0 <= i < a.len() ==> a[i] != sep,
    ensures
        first_byte_idx(a + seq![sep] + b, sep) == a.len(),
{
    let u = a + seq![sep] + b;
    crate::text::lemma_first_byte_idx(u, sep);
    let f = first_byte_idx(u, sep);
    assert(u[a.len() as int] == sep);
    if f < a.len() {
        assert(u[f] == sep);
        assert(u[f] == a[f]);
    }
    if f > a.len() {
        assert(u[a.len() as int] != sep);
    }
}

/// Splitting undoes joining, when no part holds the separator.
proof fn lemma_split_join_inverse(ps: Seq<Seq<u8>>, sep: u8)
    requires
        ps.len() >= 1,
        forall|j: int, k: int| 0 <= j < ps.len() && 0 <= k < ps[j].len() ==> ps[j][k] != sep,
    ensures
        split_seq(join_seq(ps, seq![sep]), sep) == ps,
    decreases ps.len(),
{
    if ps.len() == 1 {
        lemma_no_sep_first_idx(ps[0], sep);
        assert(join_seq(ps, seq![sep]) == ps[0]);
        assert(split_seq(ps[0], sep) =~= seq![ps[0]]);
        assert(seq![ps[0]] =~= ps);
    } else {
        let rest = ps.drop_first();
        let jr = join_seq(rest, seq![sep]);
        let u = join_seq(ps, seq![sep]);
        assert(u == ps[0] + seq![sep] + jr);
        lemma_sep_at_first_idx(ps[0], sep, jr);
        assert forall|j: int, k: int|
            0 <= j < rest.len() && 0 <= k < rest[j].len() implies rest[j][k] != sep by {
            assert(rest[j] == ps[j + 1]);
        }
        lemma_split_join_inverse(rest, sep);
        assert(u.take(ps[0].len() as int) =~= ps[0]);
        assert(u.skip(ps[0].len() + 1 as int) =~= jr);
        assert(split_seq(u, sep) == seq![ps[0]] + split_seq(jr, sep));
        assert(seq![ps[0]] + rest =~= ps);
    }
}

/// Every byte of every part of a split of slug-or-space bytes is a slug byte.
proof fn lemma_split_parts_slug_bytes(s: Seq<u8>)
    requires
        forall|i: int| 0 <= i < s.len() ==> is_slug_byte(s[i]) || s[i] == 32,
    ensures
        forall|j: int, k: int|
            0 <= j < split_seq(s, 32).len() && 0 <= k < split_seq(s, 32)[j].len() ==> is_slug_byte(
                split_seq(s, 32)[j][k],
            ),
    decreases s.len(),
{
    crate::text::lemma_first_byte_idx(s, 32);
    let i = first_byte_idx(s, 32);
    if i < 0 || i >= s.len() {
        assert forall|j: int, k: int|
            0 <= j < split_seq(s, 32).len() && 0 <= k < split_seq(s, 32)[j].len() implies
            is_slug_byte(split_seq(s, 32)[j][k]) by {
            assert(split_seq(s, 32)[j] == s);
            assert(s[k] != 32);
        }
    } else {
        let head = s.take(i);
        let tail = s.skip(i + 1);
        assert forall|x: int| 0 <= x < tail.len() implies is_slug_byte(tail[x]) || tail[x]
            == 32 by {
            assert(tail[x] == s[x + i + 1]);
        }
        lemma_split_parts_slug_bytes(tail);
        assert forall|j: int, k: int|
            0 <= j < split_seq(s, 32).len() && 0 <= k < split_seq(s, 32)[j].len() implies
            is_slug_byte(split_seq(s, 32)[j][k]) by {
            if j == 0 {
                assert(split_seq(s, 32)[0] == head);
                assert(head[k] == s[k]);
                assert(s[k] != 32);
            } else {
                assert(split_seq(s, 32)[j] == split_seq(tail, 32)[j - 1]);
            }
        }
    }
}

/// The non-empty parts keep their bytes, and are themselves unchanged by a
/// second pass.
proof fn lemma_nonempties_slug_bytes(ps: Seq<Seq<u8>>)
    requires
        forall|j: int, k: int| 0 <= j < ps.len() && 0 <= k < ps[j].len() ==> is_slug_byte(ps[j][k]),
    ensures
        forall|j: int, k: int|
            0 <= j < nonempties(ps).len() && 0 <= k < nonempties(ps)[j].len() ==> is_slug_byte(
                nonempties(ps)[j][k],
            ),
        forall|j: int| 0 <= j < nonempties(ps).len() ==> nonempties(ps)[j].len() > 0,
    decreases ps.len(),
{
    if ps.len() > 0 {
        let rest = ps.drop_first();
        assert forall|j: int, k: int|
            0 <= j < rest.len() && 0 <= k < rest[j].len() implies is_slug_byte(rest[j][k]) by {
            assert(rest[j] == ps[j + 1]);
        }
        lemma_nonempties_slug_bytes(rest);
        if ps[0].len() > 0 {
            assert forall|j: int, k: int|
                0 <= j < nonempties(ps).len() && 0 <= k < nonempties(ps)[j].len() implies
                is_slug_byte(nonempties(ps)[j][k]) by {
                if j == 0 {
                    assert(nonempties(ps)[0] == ps[0]);
                } else {
                    assert(nonempties(ps)[j] == nonempties(rest)[j - 1]);
                }
            }
            assert forall|j: int| 0 <= j < nonempties(ps).len() implies nonempties(ps)[j].len()
                > 0 by {
                if j == 0 {
                    assert(nonempties(ps)[0] == ps[0]);
                } else {
                    assert(nonempties(ps)[j] == nonempties(rest)[j - 1]);
                }
            }
        } else {
            assert(nonempties(ps) == nonempties(rest));
        }
    }
}

/// Dropping empty parts changes nothing when no part is empty.
proof fn lemma_nonempties_id(ps: Seq<Seq<u8>>)
    requires
        forall|j: int| 0 <= j < ps.len() ==> ps[j].len() > 0,
    ensures
        nonempties(ps) == ps,
    decreases ps.len(),
{
    if ps.len() > 0 {
        let rest = ps.drop_first();
        lemma_nonempties_id(rest);
        assert(nonempties(ps) == seq![ps[0]] + rest);
        assert(seq![ps[0]] + rest =~= ps);
    }
}

/// Lower-casing and alphanumeric normalization leave a joined slug alone,
/// up to the separator turning back into a space.
proof fn lemma_norm_join(ps: Seq<Seq<u8>>)
    requires
        forall|j: int, k: int| 0 <= j < ps.len() && 0 <= k < ps[j].len() ==> is_slug_byte(ps[j][k]),
    ensures
        lower(join_seq(ps, seq![45u8])) == join_seq(ps, seq![45u8]),
        alnum_norm(lower(join_seq(ps, seq![45u8]))) == join_seq(ps, seq![32u8]),
    decreases ps.len(),
{
    if ps.len() == 0 {
        assert(lower(join_seq(ps, seq![45u8])) =~= join_seq(ps, seq![45u8]));
        assert(alnum_norm(lower(join_seq(ps, seq![45u8]))) =~= join_seq(ps, seq![32u8]));
    } else if ps.len() == 1 {
        assert(join_seq(ps, seq![45u8]) == ps[0]);
        assert(join_seq(ps, seq![32u8]) == ps[0]);
        assert(lower(ps[0]) =~= ps[0]);
        assert(alnum_norm(lower(ps[0])) =~= ps[0]);
    } else {
        let rest = ps.drop_first();
        assert forall|j: int, k: int|
            0 <= j < rest.len() && 0 <= k < rest[j].len() implies is_slug_byte(rest[j][k]) by {
            assert(rest[j] == ps[j + 1]);
        }
        lemma_norm_join(rest);
        let jr = join_seq(rest, seq![45u8]);
        let u = ps[0] + seq![45u8] + jr;
        assert(join_seq(ps, seq![45u8]) == u);
        assert(lower(u) =~= ps[0] + seq![45u8] + lower(jr)) by {
            assert forall|x: int| 0 <= x < u.len() implies lower(u)[x] == (ps[0] + seq![45u8]
                + lower(jr))[x] by {
                if x < ps[0].len() {
                    assert(u[x] == ps[0][x]);
                } else if x == ps[0].len() {
                    assert(u[x] == 45u8);
                } else {
                    assert(u[x] == jr[x - ps[0].len() - 1]);
                    assert(lower(jr)[x - ps[0].len() - 1] == crate::text::lower_byte(
                        jr[x - ps[0].len() - 1],
                    ));
                }
            }
        }
        assert(lower(u) == ps[0] + seq![45u8] + jr);
        assert(alnum_norm(lower(u)) =~= ps[0] + seq![32u8] + alnum_norm(lower(jr))) by {
            let w = lower(u);
            assert forall|x: int| 0 <= x < w.len() implies alnum_norm(w)[x] == (ps[0] + seq![32u8]
                + alnum_norm(lower(jr)))[x] by {
                if x < ps[0].len() {
                    assert(w[x] == ps[0][x]);
                } else if x == ps[0].len() {
                    assert(w[x] == 45u8);
                } else {
                    assert(w[x] == jr[x - ps[0].len() - 1]);
                    assert(lower(jr)[x - ps[0].len() - 1] == jr[x - ps[0].len() - 1]);
                    assert(alnum_norm(lower(jr))[x - ps[0].len() - 1] == alnum_norm(w)[x]);
                }
            }
        }
        assert(join_seq(ps, seq![32u8]) == ps[0] + seq![32u8] + join_seq(rest, seq![32u8]));
    }
}

/// Law: slug normalization is idempotent — normalizing a normal form gives
/// it back, so deriving an identity twice changes nothing.
pub proof fn lemma_normalize_slug_idempotent(s: Seq<u8>)
    ensures
        normalize_slug(normalize_slug(s)) == normalize_slug(s),
{
    reveal_strlit("-");
    let an = alnum_norm(lower(s));
    assert(forall|i: int| 0 <= i < an.len() ==> is_slug_byte(an[i]) || an[i] == 32);
    lemma_split_parts_slug_bytes(an);
    let ps = nonempties(split_seq(an, 32));
    lemma_nonempties_slug_bytes(split_seq(an, 32));
    let t = normalize_slug(s);
    assert(lit("-") =~= seq![45u8]);
    assert(t == join_seq(ps, seq![45u8]));
    lemma_norm_join(ps);
    if ps.len() == 0 {
        assert(t == join_seq(ps, seq![45u8]));
        assert(t =~= Seq::<u8>::empty());
        assert(alnum_norm(lower(t)) =~= Seq::<u8>::empty());
        lemma_no_sep_first_idx(Seq::<u8>::empty(), 32);
        assert(split_seq(Seq::<u8>::empty(), 32) == seq![Seq::<u8>::empty()]);
        assert(seq![Seq::<u8>::empty()].drop_first() =~= Seq::<Seq<u8>>::empty());
        assert(nonempties(Seq::<Seq<u8>>::empty()) == Seq::<Seq<u8>>::empty());
        assert(nonempties(split_seq(Seq::<u8>::empty(), 32)) =~= Seq::<Seq<u8>>::empty());
        assert(normalize_slug(t) == join_seq(Seq::<Seq<u8>>::empty(), seq![45u8]));
        assert(normalize_slug(t) =~= t);
    } else {
        assert(alnum_norm(lower(t)) == join_seq(ps, seq![32u8]));
        assert forall|j: int, k: int|
            0 <= j < ps.len() && 0 <= k < ps[j].len() implies ps[j][k] != 32 by {
            assert(is_slug_byte(ps[j][k]));
        }
        lemma_split_join_inverse(ps, 32);
        lemma_nonempties_id(ps);
        assert(normalize_slug(t) == join_seq(ps, seq![45u8]));
    }
}

/// First letter upper-cased.
pub open spec fn cap_first(s: Seq<u8>) -> Seq<u8> {
    if s.len() > 0 && is_lower_alpha(s[0]) {
        seq![(s[0] - 32) as u8] + s.drop_first()
    } else {
        s
    }
}

/// Each part with its first letter upper-cased.
pub open spec fn cap_all(ps: Seq<Seq<u8>>) -> Seq<Seq<u8>> {
    ps.map_values(|p: Seq<u8>| cap_first(p))
}

/// Title case of a slug: `-` becomes a space and each word is capitalized.
pub open spec fn title_case(s: Seq<u8>) -> Seq<u8> {
    join_seq(cap_all(split_seq(s, 45)), lit(" "))
}

fn cap_first_bytes(s: &[u8]) -> (r: Vec<u8>)
    ensures
        r@ == cap_first(s@),
{
    let mut r: Vec<u8> = Vec::new();
    if s.len() > 0 {
        let b = s[0];
        if 97 <= b && b <= 122 {
            r.push(b - 32);
        } else {
            r.push(b);
        }
        let mut i: usize = 1;
        while i < s.len()
            invariant
                1 <= i <= s@.len(),
                r@.len() == i,
                r@[0] == cap_first(s@)[0],
                forall|j: int| 1 <= j < i ==> r@[j] == s@[j],
                cap_first(s@).len() == s@.len(),
                forall|j: int| 1 <= j < s@.len() ==> cap_first(s@)[j] == s@[j],
            decreases s@.len() - i,
        {
            r.push(s[i]);
            i = i + 1;
        }
        proof {
            assert(r@ =~= cap_first(s@));
        }
    } else {
        proof {
            assert(r@ =~= cap_first(s@));
        }
    }
    r
}

/// Title-cases a slug.
pub fn title_case_bytes(s: &[u8]) -> (r: Vec<u8>)
    ensures
        r@ == title_case(s@),
{
    let parts = split_on(s, 45);
    let ghost pv = views(parts@);
    let mut caps: Vec<Vec<u8>> = Vec::new();
    proof {
        assert(views(caps@) =~= cap_all(pv).take(0));
    }
    let mut i: usize = 0;
    while i < parts.len()
        invariant
            i <= parts@.len(),
            pv == views(parts@),
            views(caps@) == cap_all(pv).take(i as int),
        decreases parts@.len() - i,
    {
        let c = cap_first_bytes(parts[i].as_slice());
        let ghost cv = c@;
        let ghost c0 = caps@;
        caps.push(c);
        proof {
            assert(cap_all(pv).len() == pv.len());
            assert(pv.len() == parts@.len());
            assert(views(c0).len() == c0.len());
            assert(cap_all(pv).take(i as int).len() == i as int);
            assert(c0.len() == i as int);
            assert(cap_all(pv)[i as int] == cap_first(pv[i as int]));
            assert(pv[i as int] == parts@[i as int]@);
            assert(cv == cap_first(pv[i as int]));
            assert forall|k: int| 0 <= k < i + 1 implies views(caps@)[k] == cap_all(pv).take(i + 1)[k] by {
                if k < i {
                    assert(views(c0)[k] == cap_all(pv).take(i as int)[k]);
                    assert(caps@[k] == c0[k]);
                } else {
                    assert(caps@[k]@ == cv);
                }
            }
            assert(views(caps@) =~= cap_all(pv).take(i + 1));
        }
        i = i + 1;
    }
    proof {
        assert(cap_all(pv).take(cap_all(pv).len() as int) =~= cap_all(pv));
    }
    proof {
        reveal_strlit(" ");
    }
    let sep = lit_bytes(" ");
    join_with(&caps, sep.as_slice())
}

/// The display name for a page: the `Name:` header field when present,
/// else the slug title-cased.
pub open spec fn display_name_of(header: Option<Seq<u8>>, slug: Seq<u8>) -> Seq<u8> {
    match header {
        Some(h) => match crate::text::field_value_spec(h, lit("Name")) {
            Some(v) => v,
            None => title_case(slug),
        },
        None => title_case(slug),
    }
}

/// Derives the display name for a page.
pub fn display_name(header: &Option<Vec<u8>>, slug: &[u8]) -> (r: Vec<u8>)
    ensures
        r@ == display_name_of(opt_view(*header), slug@),
{
    proof {
        reveal_strlit("Name");
    }
    let label = lit_bytes("Name");
    match header {
        Some(h) => {
            match crate::text::field_value(h.as_slice(), label.as_slice()) {
                Some(v) => v,
                None => title_case_bytes(slug),
            }
        },
        None => title_case_bytes(slug),
    }
}

} // verus!
