//! Request canonicalization: the canonical header block (protocol-prefixed
//! headers, lower-cased, sorted, one "name:value" line each) and the
//! canonical resource (path plus deterministically sorted query string).
use vstd::prelude::*;
use vstd::multiset::Multiset;
use vstd::relations::{sorted_by, total_ordering};
use vstd::seq_lib::lemma_sorted_unique;

use crate::error::Error;
use crate::util::{
    append_bytes, bytes_eq, bytes_has_prefix, bytes_of, copy_bytes, has_prefix,
    lemma_insert_to_multiset, lemma_lex_le_antisymmetric, lemma_lex_le_connected,
    lemma_lex_le_transitive, lex_le, lex_le_bytes, lex_leq, lower_bytes, sort_bytes,
    to_lower_bytes, txt, views,
};

verus! {

/// One request header: a name and a value, both byte strings.
pub struct Header {
    pub name: Vec<u8>,
    pub value: Vec<u8>,
}

/// Mathematical view of a `Header`.
#[verifier::ext_equal]
pub ghost struct HeaderV {
    pub name: Seq<u8>,
    pub value: Seq<u8>,
}

impl View for Header {
    type V = HeaderV;

    open spec fn view(&self) -> HeaderV {
        HeaderV { name: self.name@, value: self.value@ }
    }
}

/// The views of a vector of headers.
pub open spec fn hviews(v: Seq<Header>) -> Seq<HeaderV> {
    v.map_values(|h: Header| h@)
}

/// Header order for the canonical block: by name in lexicographic byte
/// order; headers of equal name are ordered by value, making the order
/// total and the sorted block a function of the header multiset alone.
pub open spec fn hdr_le(x: HeaderV, y: HeaderV) -> bool {
    if x.name == y.name {
        lex_le(x.value, y.value)
    } else {
        lex_le(x.name, y.name)
    }
}

/// `hdr_le` as a binary relation value.
pub open spec fn hdr_leq() -> spec_fn(HeaderV, HeaderV) -> bool {
    |x: HeaderV, y: HeaderV| hdr_le(x, y)
}

pub proof fn lemma_hdr_total_ordering()
    ensures
        total_ordering(hdr_leq()),
{
    assert forall|x: HeaderV| #[trigger] hdr_leq()(x, x) by {
        lemma_lex_le_connected(x.value, x.value);
    }
    assert forall|x: HeaderV, y: HeaderV| #[trigger] hdr_leq()(x, y) || #[trigger] hdr_leq()(y, x) by {
        lemma_lex_le_connected(x.name, y.name);
        lemma_lex_le_connected(x.value, y.value);
    }
    assert forall|x: HeaderV, y: HeaderV| #[trigger] hdr_leq()(x, y) && #[trigger] hdr_leq()(y, x)
        implies x == y by {
        if x.name == y.name {
            lemma_lex_le_antisymmetric(x.value, y.value);
            assert(x =~= y);
        } else {
            lemma_lex_le_antisymmetric(x.name, y.name);
        }
    }
    assert forall|x: HeaderV, y: HeaderV, z: HeaderV|
        #[trigger] hdr_leq()(x, y) && #[trigger] hdr_leq()(y, z) implies hdr_leq()(x, z) by {
        if x.name == y.name && y.name == z.name {
            lemma_lex_le_transitive(x.value, y.value, z.value);
        } else if x.name == y.name {
            // x.name == y.name != z.name
        } else if y.name == z.name {
            // x.name != y.name == z.name
        } else {
            lemma_lex_le_transitive(x.name, y.name, z.name);
            if x.name == z.name {
                lemma_lex_le_antisymmetric(x.name, y.name);
            }
        }
    }
}

fn hdr_le_exec(x: &Header, y: &Header) -> (r: bool)
    ensures
        r == hdr_le(x@, y@),
{
    if bytes_eq(&x.name, &y.name) {
        lex_le_bytes(&x.value, &y.value)
    } else {
        lex_le_bytes(&x.name, &y.name)
    }
}

/// Sorts headers by `hdr_le`.
fn sort_headers(v: Vec<Header>) -> (r: Vec<Header>)
    ensures
        hviews(r@) == hviews(v@).sort_by(hdr_leq()),
{
    broadcast use {vstd::seq_lib::group_to_multiset_ensures, vstd::multiset::group_multiset_axioms};

    proof {
        lemma_hdr_total_ordering();
    }
    let ghost orig = hviews(v@);
    let mut rest = v;
    let mut out: Vec<Header> = Vec::new();
    while rest.len() > 0
        invariant
            sorted_by(hviews(out@), hdr_leq()),
            hviews(out@).to_multiset().add(hviews(rest@).to_multiset()) =~= orig.to_multiset(),
        decreases rest.len(),
    {
        let ghost rest0 = hviews(rest@);
        let x = rest.remove(0);
        proof {
            assert(hviews(rest@) =~= rest0.remove(0));
            vstd::seq_lib::to_multiset_remove(rest0, 0);
            assert(rest0.contains(rest0[0]));
            vstd::seq_lib::to_multiset_contains(rest0, rest0[0]);
            assert(rest0.to_multiset().count(rest0[0]) > 0);
        }
        let ghost pre = hviews(out@);
        let mut k: usize = 0;
        while k < out.len() && hdr_le_exec(&out[k], &x)
            invariant
                k <= out.len(),
                hviews(out@) == pre,
                forall|j: int| 0 <= j < k ==> hdr_le(pre[j], x@),
            decreases out.len() - k,
        {
            k = k + 1;
        }
        let ghost kk = k as int;
        let ghost n = pre.len() as int;
        proof {
            assert(kk < n ==> !hdr_le(pre[kk], x@));
            lemma_hdr_total_ordering();
        }
        out.insert(k, x);
        proof {
            let post = hviews(out@);
            pre.insert_ensures(kk, x@);
            assert(post =~= pre.insert(kk, x@));
            assert forall|i: int, j: int| 0 <= i < j < post.len() implies #[trigger] hdr_leq()(
                post[i],
                post[j],
            ) by {
                if i > kk {
                    assert(pre.insert(kk, x@)[(i - 1) + 1] == pre[i - 1]);
                }
                if j > kk {
                    assert(pre.insert(kk, x@)[(j - 1) + 1] == pre[j - 1]);
                }
                if j < kk {
                    assert(hdr_leq()(pre[i], pre[j]));
                } else if j == kk {
                    assert(hdr_le(pre[i], x@));
                } else if i == kk {
                    assert(hdr_leq()(pre[kk], x@) || hdr_leq()(x@, pre[kk]));
                    if j - 1 > kk {
                        assert(hdr_leq()(pre[kk], pre[j - 1]));
                        assert(hdr_leq()(x@, pre[kk]) && hdr_leq()(pre[kk], pre[j - 1])
                            ==> hdr_leq()(x@, pre[j - 1]));
                    }
                } else if i < kk {
                    assert(hdr_leq()(pre[i], pre[j - 1]));
                } else {
                    assert(hdr_leq()(pre[i - 1], pre[j - 1]));
                }
            }
            lemma_insert_to_multiset(pre, kk, x@);
            assert(hviews(out@).to_multiset().add(hviews(rest@).to_multiset())
                =~= orig.to_multiset());
        }
    }
    proof {
        assert(hviews(rest@) =~= Seq::<HeaderV>::empty());
        assert(hviews(rest@).to_multiset() =~= Multiset::<HeaderV>::empty());
        assert(hviews(out@).to_multiset() =~= orig.to_multiset());
        orig.lemma_sort_by_ensures(hdr_leq());
        lemma_sorted_unique(hviews(out@), orig.sort_by(hdr_leq()), hdr_leq());
    }
    out
}

/// Whether a header belongs to the canonical block: its name, compared
/// case-insensitively, starts with "x-log" or "x-acs".
pub open spec fn is_canon_name(name: Seq<u8>) -> bool {
    has_prefix(lower_bytes(name), txt("x-log")) || has_prefix(lower_bytes(name), txt("x-acs"))
}

pub open spec fn canon_pred() -> spec_fn(HeaderV) -> bool {
    |h: HeaderV| is_canon_name(h.name)
}

/// The same header with its name lower-cased.
pub open spec fn lower_hdr(h: HeaderV) -> HeaderV {
    HeaderV { name: lower_bytes(h.name), value: h.value }
}

pub open spec fn lower_hdr_fn() -> spec_fn(HeaderV) -> HeaderV {
    |h: HeaderV| lower_hdr(h)
}

/// The canonical selection: protocol-prefixed headers, in input order,
/// names lower-cased.
pub open spec fn select_canon(hs: Seq<HeaderV>) -> Seq<HeaderV> {
    hs.filter(canon_pred()).map_values(lower_hdr_fn())
}

proof fn lemma_select_canon_push(s: Seq<HeaderV>, x: HeaderV)
    ensures
        select_canon(s.push(x)) == if is_canon_name(x.name) {
            select_canon(s).push(lower_hdr(x))
        } else {
            select_canon(s)
        },
{
    s.lemma_filter_push(x, canon_pred());
    if is_canon_name(x.name) {
        s.filter(canon_pred()).lemma_push_map_commute(lower_hdr_fn(), x);
    }
}

/// The formatted block: each entry as "name:value" followed by a newline,
/// nothing at all for an empty selection.
pub open spec fn hdr_block(entries: Seq<HeaderV>) -> Seq<u8>
    decreases entries.len(),
{
    if entries.len() == 0 {
        Seq::empty()
    } else {
        hdr_block(entries.drop_last()) + entries.last().name + seq![58u8] + entries.last().value
            + seq![10u8]
    }
}

/// The canonical header block of a header list.
pub open spec fn canon_headers_block(hs: Seq<HeaderV>) -> Seq<u8> {
    hdr_block(select_canon(hs).sort_by(hdr_leq()))
}

/// Computes the canonical header block: select the "x-log"/"x-acs"
/// prefixed headers case-insensitively, lower-case their names, sort, and
/// format each as "name:value" with a newline after every entry.
pub fn canonical_headers(headers: &Vec<Header>) -> (r: Vec<u8>)
    ensures
        r@ == canon_headers_block(hviews(headers@)),
{
    let xlog = bytes_of("x-log");
    let xacs = bytes_of("x-acs");
    let mut sel: Vec<Header> = Vec::new();
    let mut i: usize = 0;
    while i < headers.len()
        invariant
            i <= headers.len(),
            xlog@ == txt("x-log"),
            xacs@ == txt("x-acs"),
            hviews(sel@) == select_canon(hviews(headers@).take(i as int)),
        decreases headers.len() - i,
    {
        let low = to_lower_bytes(&headers[i].name);
        let ghost h = hviews(headers@)[i as int];
        proof {
            hviews(headers@).lemma_take_succ_push(i as int);
            lemma_select_canon_push(hviews(headers@).take(i as int), h);
        }
        if bytes_has_prefix(&low, &xlog) || bytes_has_prefix(&low, &xacs) {
            let value = copy_bytes(&headers[i].value);
            sel.push(Header { name: low, value });
            proof {
                assert(hviews(sel@) =~= select_canon(hviews(headers@).take(i as int)).push(
                    lower_hdr(h),
                ));
            }
        }
        i = i + 1;
    }
    proof {
        assert(hviews(headers@).take(headers@.len() as int) =~= hviews(headers@));
    }
    let sorted = sort_headers(sel);
    let mut out: Vec<u8> = Vec::new();
    let mut j: usize = 0;
    while j < sorted.len()
        invariant
            j <= sorted.len(),
            out@ == hdr_block(hviews(sorted@).take(j as int)),
        decreases sorted.len() - j,
    {
        append_bytes(&mut out, &sorted[j].name);
        out.push(58);
        append_bytes(&mut out, &sorted[j].value);
        out.push(10);
        proof {
            assert(hviews(sorted@).take(j + 1).drop_last() =~= hviews(sorted@).take(j as int));
            assert(hviews(sorted@).take(j + 1).last() == hviews(sorted@)[j as int]);
            assert(out@ =~= hdr_block(hviews(sorted@).take(j + 1)));
        }
        j = j + 1;
    }
    proof {
        assert(hviews(sorted@).take(sorted@.len() as int) =~= hviews(sorted@));
    }
    out
}

proof fn lemma_select_canon_remove(s: Seq<HeaderV>, j: int)
    requires
        0 <= j < s.len(),
    ensures
        select_canon(s).to_multiset() =~= if is_canon_name(s[j].name) {
            select_canon(s.remove(j)).to_multiset().insert(lower_hdr(s[j]))
        } else {
            select_canon(s.remove(j)).to_multiset()
        },
    decreases s.len(),
{
    broadcast use {vstd::seq_lib::group_to_multiset_ensures, vstd::multiset::group_multiset_axioms};

    let x = s.last();
    let t = s.drop_last();
    assert(s =~= t.push(x));
    lemma_select_canon_push(t, x);
    if j == s.len() - 1 {
        assert(s.remove(j) =~= t);
    } else {
        assert(s.remove(j).drop_last() =~= t.remove(j));
        assert(s.remove(j).last() == x);
        assert(s.remove(j) =~= t.remove(j).push(x));
        lemma_select_canon_push(t.remove(j), x);
        lemma_select_canon_remove(t, j);
        assert(t[j] == s[j]);
    }
}

/// Canonical header selection is order-independent: two header lists that
/// hold the same headers (as a multiset, in any order) yield the same
/// canonical header block.
pub proof fn lemma_canon_headers_order_independent(h1: Seq<HeaderV>, h2: Seq<HeaderV>)
    requires
        h1.to_multiset() == h2.to_multiset(),
    ensures
        canon_headers_block(h1) == canon_headers_block(h2),
    decreases h1.len(),
{
    lemma_select_canon_multiset(h1, h2);
    lemma_hdr_total_ordering();
    select_canon(h1).lemma_sort_by_ensures(hdr_leq());
    select_canon(h2).lemma_sort_by_ensures(hdr_leq());
    lemma_sorted_unique(
        select_canon(h1).sort_by(hdr_leq()),
        select_canon(h2).sort_by(hdr_leq()),
        hdr_leq(),
    );
}

/// The value of one hexadecimal digit, upper or lower case.
pub open spec fn hex_val(b: u8) -> Option<u8> {
    if 48 <= b <= 57 {
        Some((b - 48) as u8)
    } else if 65 <= b <= 70 {
        Some((b - 55) as u8)
    } else if 97 <= b <= 102 {
        Some((b - 87) as u8)
    } else {
        None
    }
}

fn hex_val_exec(b: u8) -> (r: Option<u8>)
    ensures
        r == hex_val(b),
        r is Some ==> r.unwrap() < 16,
{
    if 48 <= b && b <= 57 {
        Some(b - 48)
    } else if 65 <= b && b <= 70 {
        Some(b - 55)
    } else if 97 <= b && b <= 102 {
        Some(b - 87)
    } else {
        None
    }
}

/// Percent-decoding of one query component, with '+' meaning a space.
/// A '%' not followed by two hexadecimal digits is malformed: `None`.
pub open spec fn pct_decode(s: Seq<u8>) -> Option<Seq<u8>>
    decreases s.len(),
{
    if s.len() == 0 {
        Some(Seq::empty())
    } else if s[0] == 37 {
        if s.len() >= 3 && hex_val(s[1]) is Some && hex_val(s[2]) is Some {
            match pct_decode(s.skip(3)) {
                Some(rest) => Some(
                    seq![(hex_val(s[1]).unwrap() * 16 + hex_val(s[2]).unwrap()) as u8] + rest,
                ),
                None => None,
            }
        } else {
            None
        }
    } else {
        let c: u8 = if s[0] == 43 {
            32
        } else {
            s[0]
        };
        match pct_decode(s.skip(1)) {
            Some(rest) => Some(seq![c] + rest),
            None => None,
        }
    }
}

fn pct_decode_from(s: &Vec<u8>, i: usize) -> (r: Option<Vec<u8>>)
    requires
        i <= s.len(),
    ensures
        r is Some <==> pct_decode(s@.skip(i as int)) is Some,
        r is Some ==> r.unwrap()@ == pct_decode(s@.skip(i as int)).unwrap(),
    decreases s.len() - i,
{
    let ghost tail = s@.skip(i as int);
    if i == s.len() {
        proof {
            assert(tail =~= Seq::<u8>::empty());
        }
        Some(Vec::new())
    } else if s[i] == 37 {
        if s.len() - i >= 3 {
            let h = hex_val_exec(s[i + 1]);
            let l = hex_val_exec(s[i + 2]);
            if h.is_some() && l.is_some() {
                proof {
                    assert(tail.len() >= 3);
                    assert(tail[1] == s@[i + 1]);
                    assert(tail[2] == s@[i + 2]);
                    assert(tail.skip(3) =~= s@.skip(i + 3));
                }
                match pct_decode_from(s, i + 3) {
                    Some(rest) => {
                        let b = h.unwrap() * 16 + l.unwrap();
                        let mut out: Vec<u8> = Vec::new();
                        out.push(b);
                        append_bytes(&mut out, &rest);
                        proof {
                            assert(out@ =~= pct_decode(tail).unwrap());
                        }
                        Some(out)
                    },
                    None => None,
                }
            } else {
                None
            }
        } else {
            None
        }
    } else {
        let c: u8 = if s[i] == 43 {
            32
        } else {
            s[i]
        };
        proof {
            assert(tail[0] == s@[i as int]);
            assert(tail.skip(1) =~= s@.skip(i + 1));
        }
        match pct_decode_from(s, i + 1) {
            Some(rest) => {
                let mut out: Vec<u8> = Vec::new();
                out.push(c);
                append_bytes(&mut out, &rest);
                proof {
                    assert(out@ =~= pct_decode(tail).unwrap());
                }
                Some(out)
            },
            None => None,
        }
    }
}

/// Splitting on a separator byte: one piece per run between separators;
/// the result always has one piece more than the separator count.
pub open spec fn split_on(s: Seq<u8>, sep: u8) -> Seq<Seq<u8>>
    decreases s.len(),
{
    if s.len() == 0 {
        seq![Seq::<u8>::empty()]
    } else if s[0] == sep {
        seq![Seq::<u8>::empty()] + split_on(s.skip(1), sep)
    } else {
        let r = split_on(s.skip(1), sep);
        seq![seq![s[0]] + r[0]] + r.skip(1)
    }
}

proof fn lemma_split_on_nonempty(s: Seq<u8>, sep: u8)
    ensures
        split_on(s, sep).len() >= 1,
    decreases s.len(),
{
    if s.len() != 0 && s[0] != sep {
        lemma_split_on_nonempty(s.skip(1), sep);
    }
}

fn split_from(s: &Vec<u8>, sep: u8, i: usize) -> (r: Vec<Vec<u8>>)
    requires
        i <= s.len(),
    ensures
        views(r@) == split_on(s@.skip(i as int), sep),
    decreases s.len() - i,
{
    let ghost tail = s@.skip(i as int);
    if i == s.len() {
        proof {
            assert(tail =~= Seq::<u8>::empty());
        }
        let mut r: Vec<Vec<u8>> = Vec::new();
        r.push(Vec::new());
        proof {
            assert(views(r@) =~= split_on(tail, sep));
        }
        r
    } else if s[i] == sep {
        proof {
            assert(tail[0] == s@[i as int]);
            assert(tail.skip(1) =~= s@.skip(i + 1));
        }
        let mut r = split_from(s, sep, i + 1);
        let ghost r0 = views(r@);
        r.insert(0, Vec::new());
        proof {
            assert(views(r@) =~= seq![Seq::<u8>::empty()] + r0);
        }
        r
    } else {
        proof {
            assert(tail[0] == s@[i as int]);
            assert(tail.skip(1) =~= s@.skip(i + 1));
        }
        let mut r = split_from(s, sep, i + 1);
        let ghost r0 = views(r@);
        proof {
            lemma_split_on_nonempty(s@.skip(i + 1), sep);
        }
        let mut head = r.remove(0);
        head.insert(0, s[i]);
        proof {
            assert(head@ =~= seq![s@[i as int]] + r0[0]);
        }
        r.insert(0, head);
        proof {
            assert(views(r@) =~= seq![seq![s@[i as int]] + r0[0]] + r0.skip(1));
        }
        r
    }
}

/// The bytes of a piece before its first '=', the piece's key.
pub open spec fn key_of(p: Seq<u8>) -> Seq<u8>
    decreases p.len(),
{
    if p.len() == 0 {
        Seq::empty()
    } else if p[0] == 61 {
        Seq::empty()
    } else {
        seq![p[0]] + key_of(p.skip(1))
    }
}

/// The bytes of a piece after its first '=', the piece's value; empty when
/// the piece has no '='.
pub open spec fn value_of(p: Seq<u8>) -> Seq<u8>
    decreases p.len(),
{
    if p.len() == 0 {
        Seq::empty()
    } else if p[0] == 61 {
        p.skip(1)
    } else {
        value_of(p.skip(1))
    }
}

fn copy_from(p: &Vec<u8>, j: usize) -> (r: Vec<u8>)
    requires
        j <= p.len(),
    ensures
        r@ == p@.skip(j as int),
{
    let mut r: Vec<u8> = Vec::new();
    let mut idx: usize = j;
    while idx < p.len()
        invariant
            j <= idx <= p.len(),
            r@ == p@.subrange(j as int, idx as int),
        decreases p.len() - idx,
    {
        r.push(p[idx]);
        proof {
            assert(r@ =~= p@.subrange(j as int, idx + 1));
        }
        idx = idx + 1;
    }
    proof {
        assert(p@.subrange(j as int, p@.len() as int) =~= p@.skip(j as int));
    }
    r
}

fn eq_split_from(p: &Vec<u8>, i: usize) -> (r: (Vec<u8>, Vec<u8>))
    requires
        i <= p.len(),
    ensures
        r.0@ == key_of(p@.skip(i as int)),
        r.1@ == value_of(p@.skip(i as int)),
    decreases p.len() - i,
{
    let ghost tail = p@.skip(i as int);
    if i == p.len() {
        proof {
            assert(tail =~= Seq::<u8>::empty());
        }
        (Vec::new(), Vec::new())
    } else if p[i] == 61 {
        proof {
            assert(tail[0] == p@[i as int]);
            assert(tail.skip(1) =~= p@.skip(i + 1));
        }
        (Vec::new(), copy_from(p, i + 1))
    } else {
        proof {
            assert(tail[0] == p@[i as int]);
            assert(tail.skip(1) =~= p@.skip(i + 1));
        }
        let kv = eq_split_from(p, i + 1);
        let mut k = kv.0;
        let ghost k0 = k@;
        k.insert(0, p[i]);
        proof {
            assert(k@ =~= seq![p@[i as int]] + k0);
        }
        (k, kv.1)
    }
}

/// The canonical entry of one nonempty query piece: percent-decoded key,
/// '=', percent-decoded value; `None` when either side is malformed.
pub open spec fn piece_entry(p: Seq<u8>) -> Option<Seq<u8>> {
    match (pct_decode(key_of(p)), pct_decode(value_of(p))) {
        (Some(k), Some(v)) => Some(k + seq![61u8] + v),
        _ => None,
    }
}

/// The canonical entries of the split query, in input order: empty pieces
/// are dropped, each other piece becomes "key=value"; `None` when any
/// piece is malformed.
pub open spec fn entries_of(pieces: Seq<Seq<u8>>) -> Option<Seq<Seq<u8>>>
    decreases pieces.len(),
{
    if pieces.len() == 0 {
        Some(Seq::empty())
    } else {
        let rest = entries_of(pieces.drop_first());
        if pieces[0].len() == 0 {
            rest
        } else {
            match (piece_entry(pieces[0]), rest) {
                (Some(e), Some(es)) => Some(seq![e] + es),
                _ => None,
            }
        }
    }
}

fn entries_from(pieces: &Vec<Vec<u8>>, i: usize) -> (r: Option<Vec<Vec<u8>>>)
    requires
        i <= pieces.len(),
    ensures
        r is Some <==> entries_of(views(pieces@).skip(i as int)) is Some,
        r is Some ==> views(r.unwrap()@) == entries_of(views(pieces@).skip(i as int)).unwrap(),
    decreases pieces.len() - i,
{
    let ghost tail = views(pieces@).skip(i as int);
    if i == pieces.len() {
        proof {
            assert(tail =~= Seq::<Seq<u8>>::empty());
            assert(views(Seq::<Vec<u8>>::empty()) =~= Seq::<Seq<u8>>::empty());
        }
        Some(Vec::new())
    } else {
        proof {
            assert(tail[0] == views(pieces@)[i as int]);
            assert(tail.drop_first() =~= views(pieces@).skip(i + 1));
        }
        if pieces[i].len() == 0 {
            proof {
                assert(tail[0].len() == 0);
            }
            entries_from(pieces, i + 1)
        } else {
            let kv = eq_split_from(&pieces[i], 0);
            proof {
                assert(pieces@[i as int]@.skip(0) =~= pieces@[i as int]@);
            }
            let dk = pct_decode_from(&kv.0, 0);
            let dv = pct_decode_from(&kv.1, 0);
            proof {
                assert(kv.0@.skip(0) =~= kv.0@);
                assert(kv.1@.skip(0) =~= kv.1@);
            }
            if dk.is_some() && dv.is_some() {
                let mut e = dk.unwrap();
                e.push(61);
                let dvv = dv.unwrap();
                append_bytes(&mut e, &dvv);
                proof {
                    assert(e@ =~= piece_entry(tail[0]).unwrap());
                }
                match entries_from(pieces, i + 1) {
                    Some(mut es) => {
                        let ghost es0 = views(es@);
                        es.insert(0, e);
                        proof {
                            assert(views(es@) =~= seq![piece_entry(tail[0]).unwrap()] + es0);
                        }
                        Some(es)
                    },
                    None => None,
                }
            } else {
                None
            }
        }
    }
}

/// Joining entries with '&' between them.
pub open spec fn join_amp(items: Seq<Seq<u8>>) -> Seq<u8>
    decreases items.len(),
{
    if items.len() == 0 {
        Seq::empty()
    } else if items.len() == 1 {
        items[0]
    } else {
        join_amp(items.drop_last()) + seq![38u8] + items.last()
    }
}

fn join_amp_exec(items: &Vec<Vec<u8>>) -> (r: Vec<u8>)
    ensures
        r@ == join_amp(views(items@)),
{
    let mut out: Vec<u8> = Vec::new();
    let mut i: usize = 0;
    while i < items.len()
        invariant
            i <= items.len(),
            out@ == join_amp(views(items@).take(i as int)),
        decreases items.len() - i,
    {
        if i > 0 {
            out.push(38);
        }
        append_bytes(&mut out, &items[i]);
        proof {
            assert(views(items@).take(i + 1).drop_last() =~= views(items@).take(i as int));
            assert(views(items@).take(i + 1).last() == views(items@)[i as int]);
            if i == 0 {
                assert(out@ =~= join_amp(views(items@).take(i + 1)));
            } else {
                assert(out@ =~= join_amp(views(items@).take(i + 1)));
            }
        }
        i = i + 1;
    }
    proof {
        assert(views(items@).take(items@.len() as int) =~= views(items@));
    }
    out
}

/// The canonical form of a query string: split on '&', drop empty pieces,
/// split each piece at its first '=', percent-decode both sides, format as
/// "key=value", sort the entries lexicographically by the full entry, and
/// join with '&'. `None` on malformed percent-encoding.
pub open spec fn canon_query(q: Seq<u8>) -> Option<Seq<u8>> {
    match entries_of(split_on(q, 38)) {
        Some(es) => Some(join_amp(es.sort_by(lex_leq()))),
        None => None,
    }
}

pub fn canonical_query(q: &Vec<u8>) -> (r: Option<Vec<u8>>)
    ensures
        r is Some <==> canon_query(q@) is Some,
        r is Some ==> r.unwrap()@ == canon_query(q@).unwrap(),
{
    let pieces = split_from(q, 38, 0);
    proof {
        assert(q@.skip(0) =~= q@);
        assert(views(pieces@).skip(0) =~= views(pieces@));
    }
    match entries_from(&pieces, 0) {
        Some(es) => {
            let sorted = sort_bytes(es);
            Some(join_amp_exec(&sorted))
        },
        None => None,
    }
}

/// The canonical resource: the path, then, only when a query is present,
/// '?' and the canonical query. `None` when the query is malformed.
pub open spec fn canon_resource(path: Seq<u8>, query: Option<Seq<u8>>) -> Option<Seq<u8>> {
    match query {
        None => Some(path),
        Some(q) => match canon_query(q) {
            Some(c) => Some(path + seq![63u8] + c),
            None => None,
        },
    }
}

/// View of an optional byte string.
pub open spec fn opt_view(o: Option<Vec<u8>>) -> Option<Seq<u8>> {
    match o {
        Some(v) => Some(v@),
        None => None,
    }
}

/// Computes the canonical resource; a malformed query is rejected with
/// `Error::BadUrl` before any signing takes place.
pub fn canonical_resource(path: &Vec<u8>, query: &Option<Vec<u8>>) -> (r: Result<Vec<u8>, Error>)
    ensures
        r is Ok <==> canon_resource(path@, opt_view(*query)) is Some,
        r is Ok ==> r.unwrap()@ == canon_resource(path@, opt_view(*query)).unwrap(),
        r is Err ==> r == Err::<Vec<u8>, Error>(Error::BadUrl),
{
    match query {
        None => {
            let out = copy_bytes(path);
            Ok(out)
        },
        Some(q) => {
            match canonical_query(q) {
                Some(c) => {
                    let mut out = copy_bytes(path);
                    out.push(63);
                    append_bytes(&mut out, &c);
                    proof {
                        assert(out@ =~= path@ + seq![63u8] + canon_query(q@).unwrap());
                    }
                    Ok(out)
                },
                None => Err(Error::BadUrl),
            }
        },
    }
}

pub proof fn lemma_lower_bytes_idempotent(x: Seq<u8>)
    ensures
        lower_bytes(lower_bytes(x)) == lower_bytes(x),
{
    assert(lower_bytes(lower_bytes(x)) =~= lower_bytes(x));
}

proof fn lemma_filter_all_true(s: Seq<HeaderV>, p: spec_fn(HeaderV) -> bool)
    requires
        forall|i: int| 0 <= i < s.len() ==> p(s[i]),
    ensures
        s.filter(p) == s,
    decreases s.len(),
{
    reveal(Seq::filter);
    if s.len() > 0 {
        lemma_filter_all_true(s.drop_last(), p);
        assert(s.filter(p) =~= s);
    } else {
        assert(s.filter(p) =~= s);
    }
}

/// Every header the selection produces is itself canonical: its name keeps
/// the protocol prefix and is already lower-cased.
proof fn lemma_select_canon_elements(hs: Seq<HeaderV>, i: int)
    requires
        0 <= i < select_canon(hs).len(),
    ensures
        is_canon_name(select_canon(hs)[i].name),
        lower_hdr(select_canon(hs)[i]) == select_canon(hs)[i],
{
    let kept = hs.filter(canon_pred());
    hs.lemma_filter_pred(canon_pred(), i);
    let h = kept[i];
    assert(select_canon(hs)[i] == lower_hdr(h));
    lemma_lower_bytes_idempotent(h.name);
    assert(lower_hdr(lower_hdr(h)) =~= lower_hdr(h));
}

/// Canonical header selection is idempotent: selecting again from the
/// already-selected headers changes nothing, and feeding the canonical
/// selection back in yields the identical canonical header block.
pub proof fn lemma_canon_headers_idempotent(hs: Seq<HeaderV>)
    ensures
        select_canon(select_canon(hs)) == select_canon(hs),
        canon_headers_block(select_canon(hs).sort_by(hdr_leq())) == canon_headers_block(hs),
{
    broadcast use vstd::seq_lib::group_to_multiset_ensures;

    let s = select_canon(hs);
    assert forall|i: int| 0 <= i < s.len() implies #[trigger] canon_pred()(s[i]) by {
        lemma_select_canon_elements(hs, i);
    }
    lemma_filter_all_true(s, canon_pred());
    assert forall|i: int| 0 <= i < s.len() implies #[trigger] lower_hdr_fn()(s[i]) == s[i] by {
        lemma_select_canon_elements(hs, i);
    }
    assert(s.map_values(lower_hdr_fn()) =~= s);
    assert(select_canon(s) == s);

    lemma_hdr_total_ordering();
    s.lemma_sort_by_ensures(hdr_leq());
    let x = s.sort_by(hdr_leq());
    // The sorted selection holds the same headers, so selecting from it
    // also keeps everything.
    assert forall|i: int| 0 <= i < x.len() implies #[trigger] canon_pred()(x[i]) by {
        assert(x.contains(x[i]));
        vstd::seq_lib::to_multiset_contains(x, x[i]);
        vstd::seq_lib::to_multiset_contains(s, x[i]);
        assert(s.contains(x[i]));
        let j = choose|j: int| 0 <= j < s.len() && s[j] == x[i];
        lemma_select_canon_elements(hs, j);
    }
    assert forall|i: int| 0 <= i < x.len() implies #[trigger] lower_hdr_fn()(x[i]) == x[i] by {
        assert(x.contains(x[i]));
        vstd::seq_lib::to_multiset_contains(x, x[i]);
        vstd::seq_lib::to_multiset_contains(s, x[i]);
        assert(s.contains(x[i]));
        let j = choose|j: int| 0 <= j < s.len() && s[j] == x[i];
        lemma_select_canon_elements(hs, j);
    }
    lemma_filter_all_true(x, canon_pred());
    assert(x.map_values(lower_hdr_fn()) =~= x);
    assert(select_canon(x) == x);
    // A sorted sequence is its own sort.
    x.lemma_sort_by_ensures(hdr_leq());
    lemma_sorted_unique(x.sort_by(hdr_leq()), x, hdr_leq());
}

proof fn lemma_select_canon_multiset(h1: Seq<HeaderV>, h2: Seq<HeaderV>)
    requires
        h1.to_multiset() == h2.to_multiset(),
    ensures
        select_canon(h1).to_multiset() == select_canon(h2).to_multiset(),
    decreases h1.len(),
{
    broadcast use {vstd::seq_lib::group_to_multiset_ensures, vstd::multiset::group_multiset_axioms};

    if h1.len() == 0 {
        vstd::seq_lib::to_multiset_len(h1);
        vstd::seq_lib::to_multiset_len(h2);
        assert(h2.len() == h1.len());
        assert(h2 =~= Seq::<HeaderV>::empty());
        assert(select_canon(h1) =~= Seq::<HeaderV>::empty());
        assert(select_canon(h2) =~= Seq::<HeaderV>::empty());
    } else {
        let x = h1.last();
        let last = h1.len() - 1;
        assert(h1.contains(x));
        vstd::seq_lib::to_multiset_contains(h1, x);
        vstd::seq_lib::to_multiset_contains(h2, x);
        assert(h2.contains(x));
        let j = choose|j: int| 0 <= j < h2.len() && h2[j] == x;
        assert(h1.drop_last() =~= h1.remove(last));
        vstd::seq_lib::to_multiset_remove(h1, last);
        vstd::seq_lib::to_multiset_remove(h2, j);
        lemma_select_canon_multiset(h1.remove(last), h2.remove(j));
        lemma_select_canon_remove(h1, last);
        lemma_select_canon_remove(h2, j);
    }
}

} // verus!
