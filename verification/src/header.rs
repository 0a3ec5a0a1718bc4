//! Header-text field extraction: batch, status, location, tagline, sidebar
//! attributes and the hiring flag.
//!
//! A page's header text is a blob of labelled lines (`Label: value`). The
//! batch is the exception: it is found anywhere in the text as a season word
//! followed by a 2- or 4-digit year (two-digit years fall in the 2000s).

use vstd::prelude::*;
use vstd::slice::slice_subrange;
use crate::model::Batch;
use crate::model::Season;
use crate::model::Status;
use crate::text::all_digits;
use crate::text::bytes_eq;
use crate::text::digits_val;
use crate::text::field_value;
use crate::text::field_value_spec;
use crate::text::find_byte;
use crate::text::first_byte_idx;
use crate::text::lemma_digits_val_bound;
use crate::text::lit;
use crate::text::lit_bytes;
use crate::text::lower;
use crate::text::lower_bytes;
use crate::text::opt_view;
use crate::text::parse_num;
use crate::text::pow10;
use crate::text::split_on;
use crate::text::split_seq;
use crate::text::tokens;
use crate::text::tokens_of;
use crate::text::trim;
use crate::text::trim_bytes;
use crate::text::views;

verus! {

/// The season named by a token, compared without case.
pub open spec fn season_of(t: Seq<u8>) -> Option<Season> {
    if lower(t) == lit("winter") {
        Some(Season::Winter)
    } else if lower(t) == lit("spring") {
        Some(Season::Spring)
    } else if lower(t) == lit("summer") {
        Some(Season::Summer)
    } else if lower(t) == lit("fall") {
        Some(Season::Fall)
    } else {
        None
    }
}

/// The year named by a 4-digit or 2-digit token; two digits mean the 2000s.
pub open spec fn year_of(t: Seq<u8>) -> Option<u32> {
    if all_digits(t) && t.len() == 4 {
        Some(digits_val(t) as u32)
    } else if all_digits(t) && t.len() == 2 {
        Some((2000 + digits_val(t)) as u32)
    } else {
        None
    }
}

/// The first season token immediately followed by a year token.
pub open spec fn batch_in_tokens(ts: Seq<Seq<u8>>) -> Option<Batch>
    decreases ts.len(),
{
    if ts.len() < 2 {
        None
    } else if season_of(ts[0]) is Some && year_of(ts[1]) is Some {
        Some(Batch { season: season_of(ts[0]).unwrap(), year: year_of(ts[1]).unwrap() })
    } else {
        batch_in_tokens(ts.drop_first())
    }
}

/// The batch announced in a page's header text, if any.
pub open spec fn batch_of(header: Option<Seq<u8>>) -> Option<Batch> {
    match header {
        None => None,
        Some(h) => batch_in_tokens(tokens_of(h)),
    }
}

fn season_token(t: &[u8]) -> (r: Option<Season>)
    ensures
        r == season_of(t@),
{
    proof {
        reveal_strlit("winter");
        reveal_strlit("spring");
        reveal_strlit("summer");
        reveal_strlit("fall");
    }
    let low = lower_bytes(t);
    let w = lit_bytes("winter");
    let sp = lit_bytes("spring");
    let su = lit_bytes("summer");
    let f = lit_bytes("fall");
    if bytes_eq(low.as_slice(), w.as_slice()) {
        Some(Season::Winter)
    } else if bytes_eq(low.as_slice(), sp.as_slice()) {
        Some(Season::Spring)
    } else if bytes_eq(low.as_slice(), su.as_slice()) {
        Some(Season::Summer)
    } else if bytes_eq(low.as_slice(), f.as_slice()) {
        Some(Season::Fall)
    } else {
        None
    }
}

fn year_token(t: &[u8]) -> (r: Option<u32>)
    ensures
        r == year_of(t@),
{
    if t.len() != 2 && t.len() != 4 {
        return None;
    }
    match parse_num(t) {
        None => None,
        Some(v) => {
            proof {
                lemma_digits_val_bound(t@);
                assert(pow10(0) == 1);
                assert(pow10(1) == 10);
                assert(pow10(2) == 100);
                assert(pow10(3) == 1000);
                assert(pow10(4) == 10000);
            }
            if t.len() == 4 {
                Some(v)
            } else {
                Some(2000 + v)
            }
        },
    }
}

/// Finds the batch in a page's header text.
pub fn parse_batch(header: &Option<Vec<u8>>) -> (r: Option<Batch>)
    ensures
        r == batch_of(opt_view(*header)),
{
    let h = match header {
        None => {
            return None;
        },
        Some(h) => h,
    };
    let ts = tokens(h.as_slice());
    let ghost tv = views(ts@);
    proof {
        assert(tv.skip(0) =~= tv);
    }
    let n1 = if ts.len() == 0 {
        0
    } else {
        ts.len() - 1
    };
    let mut i: usize = 0;
    while i < n1
        invariant
            i <= ts@.len(),
            n1 == if ts@.len() == 0 {
                0int
            } else {
                ts@.len() - 1
            },
            tv == views(ts@),
            tv == tokens_of(h@),
            opt_view(*header) == Some(h@),
            batch_in_tokens(tv) == batch_in_tokens(tv.skip(i as int)),
        decreases ts@.len() - i,
    {
        proof {
            assert(tv.skip(i as int)[0] == ts@[i as int]@);
            assert(tv.skip(i as int)[1] == ts@[i + 1]@);
            assert(tv.skip(i as int).drop_first() =~= tv.skip(i + 1));
        }
        let se = season_token(ts[i].as_slice());
        if se.is_some() {
            let ye = year_token(ts[i + 1].as_slice());
            match (se, ye) {
                (Some(s), Some(y)) => {
                    proof {
                        assert(batch_in_tokens(tv.skip(i as int)) == Some(
                            Batch { season: s, year: y },
                        ));
                    }
                    return Some(Batch { season: s, year: y });
                },
                _ => {},
            }
        }
        i = i + 1;
    }
    proof {
        assert(tv.skip(i as int).len() < 2);
    }
    None
}

/// The operating status announced by the `Status:` field; `Unknown` when
/// the field is absent or carries an unrecognized word.
pub open spec fn status_of(header: Option<Seq<u8>>) -> Status {
    match header {
        None => Status::Unknown,
        Some(h) => match field_value_spec(h, lit("Status")) {
            None => Status::Unknown,
            Some(v) => if lower(v) == lit("active") {
                Status::Active
            } else if lower(v) == lit("inactive") {
                Status::Inactive
            } else if lower(v) == lit("acquired") {
                Status::Acquired
            } else {
                Status::Unknown
            },
        },
    }
}

/// Reads the operating status from a page's header text.
pub fn parse_status(header: &Option<Vec<u8>>) -> (r: Status)
    ensures
        r == status_of(opt_view(*header)),
{
    let h = match header {
        None => {
            return Status::Unknown;
        },
        Some(h) => h,
    };
    proof {
        reveal_strlit("Status");
        reveal_strlit("active");
        reveal_strlit("inactive");
        reveal_strlit("acquired");
    }
    let label = lit_bytes("Status");
    match field_value(h.as_slice(), label.as_slice()) {
        None => Status::Unknown,
        Some(v) => {
            let low = lower_bytes(v.as_slice());
            let a = lit_bytes("active");
            let ina = lit_bytes("inactive");
            let acq = lit_bytes("acquired");
            if bytes_eq(low.as_slice(), a.as_slice()) {
                Status::Active
            } else if bytes_eq(low.as_slice(), ina.as_slice()) {
                Status::Inactive
            } else if bytes_eq(low.as_slice(), acq.as_slice()) {
                Status::Acquired
            } else {
                Status::Unknown
            }
        },
    }
}

/// The location announced by the `Location:` field.
pub open spec fn location_of(header: Option<Seq<u8>>) -> Option<Seq<u8>> {
    match header {
        None => None,
        Some(h) => field_value_spec(h, lit("Location")),
    }
}

/// Reads the location from a page's header text.
pub fn parse_location(header: &Option<Vec<u8>>) -> (r: Option<Vec<u8>>)
    ensures
        opt_view(r) == location_of(opt_view(*header)),
{
    match header {
        None => None,
        Some(h) => {
            proof {
                reveal_strlit("Location");
            }
            let label = lit_bytes("Location");
            field_value(h.as_slice(), label.as_slice())
        },
    }
}

/// The tagline announced by the `Tagline:` field.
pub open spec fn tagline_of(header: Option<Seq<u8>>) -> Option<Seq<u8>> {
    match header {
        None => None,
        Some(h) => field_value_spec(h, lit("Tagline")),
    }
}

/// Reads the tagline from a page's header text.
pub fn parse_tagline(header: &Option<Vec<u8>>) -> (r: Option<Vec<u8>>)
    ensures
        opt_view(r) == tagline_of(opt_view(*header)),
{
    match header {
        None => None,
        Some(h) => {
            proof {
                reveal_strlit("Tagline");
            }
            let label = lit_bytes("Tagline");
            field_value(h.as_slice(), label.as_slice())
        },
    }
}

/// The hiring flag: `Hiring:` with yes/no, true/false, or an open-roles
/// count (zero means not hiring); anything else leaves the flag unset.
pub open spec fn hiring_of(header: Option<Seq<u8>>) -> Option<bool> {
    match header {
        None => None,
        Some(h) => match field_value_spec(h, lit("Hiring")) {
            None => None,
            Some(v) => if lower(v) == lit("yes") || lower(v) == lit("true") {
                Some(true)
            } else if lower(v) == lit("no") || lower(v) == lit("false") {
                Some(false)
            } else if all_digits(v) && v.len() <= 8 {
                Some(digits_val(v) > 0)
            } else {
                None
            },
        },
    }
}

/// Reads the hiring flag from a page's header text.
pub fn parse_hiring(header: &Option<Vec<u8>>) -> (r: Option<bool>)
    ensures
        r == hiring_of(opt_view(*header)),
{
    let h = match header {
        None => {
            return None;
        },
        Some(h) => h,
    };
    proof {
        reveal_strlit("Hiring");
        reveal_strlit("yes");
        reveal_strlit("true");
        reveal_strlit("no");
        reveal_strlit("false");
    }
    let label = lit_bytes("Hiring");
    match field_value(h.as_slice(), label.as_slice()) {
        None => None,
        Some(v) => {
            let low = lower_bytes(v.as_slice());
            let yes = lit_bytes("yes");
            let tr = lit_bytes("true");
            let no = lit_bytes("no");
            let fa = lit_bytes("false");
            if bytes_eq(low.as_slice(), yes.as_slice()) || bytes_eq(low.as_slice(), tr.as_slice())
            {
                Some(true)
            } else if bytes_eq(low.as_slice(), no.as_slice()) || bytes_eq(
                low.as_slice(),
                fa.as_slice(),
            ) {
                Some(false)
            } else {
                match parse_num(v.as_slice()) {
                    Some(n) => Some(n > 0),
                    None => None,
                }
            }
        },
    }
}

/// A label whose line is a structured field of its own, not a sidebar
/// attribute.
pub open spec fn is_reserved_label(k: Seq<u8>) -> bool {
    k == lit("Name") || k == lit("Status") || k == lit("Location") || k == lit("Tagline") || k
        == lit("Founder") || k == lit("News") || k == lit("Hiring")
}

/// The sidebar pair carried by one line: `key: value` with a non-empty,
/// non-reserved key.
pub open spec fn sidebar_pair_of(line: Seq<u8>) -> Option<(Seq<u8>, Seq<u8>)> {
    let c = first_byte_idx(line, 58);
    if 0 <= c < line.len() {
        let k = trim(line.take(c));
        let v = trim(line.skip(c + 1));
        if k.len() > 0 && !is_reserved_label(k) {
            Some((k, v))
        } else {
            None
        }
    } else {
        None
    }
}

/// The sidebar pairs among `lines`, in order.
pub open spec fn sidebar_in(lines: Seq<Seq<u8>>) -> Seq<(Seq<u8>, Seq<u8>)>
    decreases lines.len(),
{
    if lines.len() == 0 {
        Seq::empty()
    } else {
        let rest = sidebar_in(lines.drop_first());
        match sidebar_pair_of(lines[0]) {
            Some(p) => seq![p] + rest,
            None => rest,
        }
    }
}

/// The sidebar attribute block of a page's header text.
pub open spec fn sidebar_of(header: Option<Seq<u8>>) -> Seq<(Seq<u8>, Seq<u8>)> {
    match header {
        None => Seq::empty(),
        Some(h) => sidebar_in(split_seq(h, 10)),
    }
}

fn reserved_label(k: &[u8]) -> (r: bool)
    ensures
        r == is_reserved_label(k@),
{
    proof {
        reveal_strlit("Name");
        reveal_strlit("Status");
        reveal_strlit("Location");
        reveal_strlit("Tagline");
        reveal_strlit("Founder");
        reveal_strlit("News");
        reveal_strlit("Hiring");
    }
    let l1 = lit_bytes("Name");
    let l2 = lit_bytes("Status");
    let l3 = lit_bytes("Location");
    let l4 = lit_bytes("Tagline");
    let l5 = lit_bytes("Founder");
    let l6 = lit_bytes("News");
    let l7 = lit_bytes("Hiring");
    bytes_eq(k, l1.as_slice()) || bytes_eq(k, l2.as_slice()) || bytes_eq(k, l3.as_slice())
        || bytes_eq(k, l4.as_slice()) || bytes_eq(k, l5.as_slice()) || bytes_eq(k, l6.as_slice())
        || bytes_eq(k, l7.as_slice())
}

fn sidebar_pair(line: &[u8]) -> (r: Option<(Vec<u8>, Vec<u8>)>)
    ensures
        r matches Some(p) ==> sidebar_pair_of(line@) == Some((p.0@, p.1@)),
        r is None ==> sidebar_pair_of(line@) is None,
{
    let c = find_byte(line, 58);
    if c < line.len() {
        let k = trim_bytes(slice_subrange(line, 0, c));
        let v = trim_bytes(slice_subrange(line, c + 1, line.len()));
        proof {
            assert(line@.subrange(0, c as int) =~= line@.take(c as int));
            assert(line@.subrange(c + 1, line@.len() as int) =~= line@.skip(c + 1));
        }
        if k.len() > 0 && !reserved_label(k.as_slice()) {
            Some((k, v))
        } else {
            None
        }
    } else {
        None
    }
}

/// Reads the sidebar attribute block from a page's header text.
pub fn parse_sidebar(header: &Option<Vec<u8>>) -> (r: Vec<(Vec<u8>, Vec<u8>)>)
    ensures
        crate::model::pairs_view(r@) == sidebar_of(opt_view(*header)),
{
    let h = match header {
        None => {
            let r: Vec<(Vec<u8>, Vec<u8>)> = Vec::new();
            proof {
                assert(crate::model::pairs_view(r@) =~= Seq::<(Seq<u8>, Seq<u8>)>::empty());
            }
            return r;
        },
        Some(h) => h,
    };
    let lines = split_on(h.as_slice(), 10);
    let ghost lv = views(lines@);
    let mut r: Vec<(Vec<u8>, Vec<u8>)> = Vec::new();
    proof {
        assert(lv.skip(0) =~= lv);
        assert(crate::model::pairs_view(r@) + sidebar_in(lv) =~= sidebar_in(lv));
    }
    let mut i: usize = 0;
    while i < lines.len()
        invariant
            i <= lines@.len(),
            lv == views(lines@),
            sidebar_in(lv) == crate::model::pairs_view(r@) + sidebar_in(lv.skip(i as int)),
        decreases lines@.len() - i,
    {
        proof {
            assert(lv.skip(i as int)[0] == lines@[i as int]@);
            assert(lv.skip(i as int).drop_first() =~= lv.skip(i + 1));
        }
        match sidebar_pair(lines[i].as_slice()) {
            Some(p) => {
                let ghost pv = (p.0@, p.1@);
                let ghost r0 = r@;
                r.push(p);
                proof {
                    assert(crate::model::pairs_view(r@) =~= crate::model::pairs_view(r0)
                        + seq![pv]);
                    assert(sidebar_in(lv.skip(i as int)) == seq![pv] + sidebar_in(lv.skip(i + 1)));
                    assert(crate::model::pairs_view(r0) + sidebar_in(lv.skip(i as int))
                        =~= crate::model::pairs_view(r@) + sidebar_in(lv.skip(i + 1)));
                }
            },
            None => {
                proof {
                    assert(sidebar_in(lv.skip(i as int)) == sidebar_in(lv.skip(i + 1)));
                }
            },
        }
        i = i + 1;
    }
    proof {
        assert(lv.skip(lv.len() as int) =~= Seq::<Seq<u8>>::empty());
    }
    r
}

} // verus!
