//! The `Accept` header: weighted media-type directives, ordered by weight.
use vstd::prelude::*;
use crate::media_type::{parse_media_type, sub_vec, MediaType, MediaTypeModel, NegotiationError};
use crate::text::{chars_of, find, find_from, first_at, occurs_at, split_all, string_of, lemma_split_once_at, lemma_split_once_none, split_once, trim, trim_bounds};

verus! {

/// The weight of a directive with no `;q=`: one, in thousandths.
pub const FULL_WEIGHT: u16 = 1000;

/// The value of a decimal digit.
pub open spec fn digit_value(c: char) -> int {
    (c as u32) as int - ('0' as u32) as int
}

pub open spec fn is_digit(c: char) -> bool {
    '0' <= c <= '9'
}

/// The number that a sequence of decimal digits spells.
pub open spec fn digits_value(d: Seq<char>) -> int
    decreases d.len(),
{
    if d.len() == 0 {
        0
    } else {
        digits_value(d.drop_last()) * 10 + digit_value(d.last())
    }
}

/// Up to three decimals after the point, in thousandths.
pub open spec fn thousandths(d: Seq<char>) -> int {
    if d.len() == 0 {
        0
    } else if d.len() == 1 {
        digits_value(d) * 100
    } else if d.len() == 2 {
        digits_value(d) * 10
    } else {
        digits_value(d)
    }
}

/// A quality value in thousandths: `0` with up to three decimals, or `1` with
/// up to three zeros as decimals. `None` for any other text.
pub open spec fn parse_qvalue(s: Seq<char>) -> Option<int> {
    if s.len() == 0 || s.len() > 5 || (s[0] != '0' && s[0] != '1') {
        None
    } else if s.len() == 1 {
        Some(if s[0] == '1' { 1000int } else { 0int })
    } else if s[1] != '.' {
        None
    } else if s[0] == '0' {
        if forall|i: int| 2 <= i < s.len() ==> is_digit(#[trigger] s[i]) {
            Some(thousandths(s.skip(2)))
        } else {
            None
        }
    } else if forall|i: int| 2 <= i < s.len() ==> #[trigger] s[i] == '0' {
        Some(1000int)
    } else {
        None
    }
}

/// The mathematical content of a [`Directive`].
pub struct DirectiveModel {
    pub media: MediaTypeModel,
    pub q: int,
}

/// One entry of an `Accept` header: a media type and its weight, in
/// thousandths (`1000` stands for `q=1`).
#[derive(Debug)]
pub struct Directive {
    pub media_type: MediaType,
    pub q: u16,
}

impl View for Directive {
    type V = DirectiveModel;

    open spec fn view(&self) -> DirectiveModel {
        DirectiveModel { media: self.media_type@, q: self.q as int }
    }
}

/// The marker that introduces a directive's weight.
pub open spec fn q_marker() -> Seq<char> {
    seq![';', 'q', '=']
}

/// The directive that one element of an `Accept` header denotes: surrounding
/// whitespace is ignored; the text before the first `;q=` is a media type, the
/// text after it the weight, which is one where there is no `;q=`.
pub open spec fn parse_directive(s: Seq<char>) -> Result<DirectiveModel, NegotiationError> {
    let t = trim(s);
    let (ty, qs) = match split_once(t, q_marker()) {
        Some((a, b)) => (a, Some(b)),
        None => (t, None),
    };
    match parse_media_type(ty) {
        None => Err(NegotiationError::MalformedMediaType),
        Some(m) => match qs {
            None => Ok(DirectiveModel { media: m, q: 1000 }),
            Some(q) => match parse_qvalue(q) {
                Some(w) => Ok(DirectiveModel { media: m, q: w }),
                None => Err(NegotiationError::InvalidQValue),
            },
        },
    }
}

fn is_digit_exec(c: char) -> (r: bool)
    ensures
        r == is_digit(c),
{
    '0' <= c && c <= '9'
}

/// Parses a quality value into thousandths.
pub fn parse_qvalue_chars(s: &Vec<char>) -> (r: Option<u16>)
    ensures
        match r {
            Some(w) => parse_qvalue(s@) == Some(w as int) && w <= 1000,
            None => parse_qvalue(s@) is None,
        },
{
    let n = s.len();
    if n == 0 || n > 5 || (s[0] != '0' && s[0] != '1') {
        return None;
    }
    if n == 1 {
        return if s[0] == '1' { Some(1000) } else { Some(0) };
    }
    if s[1] != '.' {
        return None;
    }
    let mut i: usize = 2;
    let mut value: u16 = 0;
    let ghost d = s@.skip(2);
    while i < n
        invariant
            2 <= i <= n <= 5,
            n == s@.len(),
            d == s@.skip(2),
            s@[0] == '0' ==> forall|k: int| 2 <= k < i ==> is_digit(#[trigger] s@[k]),
            s@[0] == '0' ==> value == digits_value(d.take(i - 2)),
            s@[0] == '1' ==> forall|k: int| 2 <= k < i ==> #[trigger] s@[k] == '0',
            value < 1000 * 10,
            i - 2 <= 3 ==> value < 1000,
            i == 2 ==> value == 0,
            i == 3 ==> value < 10,
            i == 4 ==> value < 100,
        decreases n - i,
    {
        let c = s[i];
        if s[0] == '0' {
            if !is_digit_exec(c) {
                return None;
            }
            assert(d.take(i - 1).drop_last() =~= d.take(i - 2));
            value = value * 10 + (c as u32 - '0' as u32) as u16;
        } else if c != '0' {
            return None;
        }
        i = i + 1;
    }
    if s[0] == '1' {
        return Some(1000);
    }
    assert(d.take(n - 2) =~= d);
    let w = if n == 2 {
        0
    } else if n == 3 {
        value * 100
    } else if n == 4 {
        value * 10
    } else {
        value
    };
    Some(w)
}

/// Parses one element of an `Accept` header, such as ` text/html;q=0.8`.
pub fn parse_accept_directive(directive_str: &str) -> (r: Result<Directive, NegotiationError>)
    ensures
        match r {
            Ok(d) => parse_directive(directive_str@) == Ok::<DirectiveModel, NegotiationError>(
                d@,
            ) && d.media_type.wf() && d.q <= 1000,
            Err(e) => parse_directive(directive_str@) == Err::<DirectiveModel, NegotiationError>(
                e,
            ),
        },
{
    let all = chars_of(directive_str);
    let (lo, hi) = trim_bounds(&all, 0, all.len());
    assert(all@.subrange(0, all.len() as int) =~= all@);
    let t = sub_vec(&all, lo, hi);
    let marker = vec![';', 'q', '='];
    assert(marker@ =~= q_marker());
    let found = find(&t, &marker);
    let (ty, qs) = match found {
        Some(i) => {
            assert(first_at(t@, marker@, i as int));
            assert(i + 3 <= t.len());
            proof {
                lemma_split_once_at(t@, marker@, i as int);
            }
            let a = sub_vec(&t, 0, i);
            let b = sub_vec(&t, i + 3, t.len());
            assert(t@.take(i as int) =~= a@);
            assert(t@.skip(i + 3) =~= b@);
            (a, Some(b))
        },
        None => {
            proof {
                lemma_split_once_none(t@, marker@);
            }
            (sub_vec(&t, 0, t.len()), None)
        },
    };
    assert(t@.subrange(0, t.len() as int) =~= t@);
    let media_type = match MediaType::parse_chars(&ty) {
        Ok(m) => m,
        Err(e) => {
            return Err(e);
        },
    };
    match qs {
        None => Ok(Directive { media_type, q: FULL_WEIGHT }),
        Some(q) => match parse_qvalue_chars(&q) {
            Some(w) => Ok(Directive { media_type, q: w }),
            None => Err(NegotiationError::InvalidQValue),
        },
    }
}

/// The directives, as models.
pub open spec fn models(v: Seq<Directive>) -> Seq<DirectiveModel> {
    v.map_values(|d: Directive| d@)
}

/// The directives that the elements parse to, in order; elements that do not
/// parse are left out.
pub open spec fn valid_directives(segs: Seq<Seq<char>>) -> Seq<DirectiveModel>
    decreases segs.len(),
{
    if segs.len() == 0 {
        Seq::empty()
    } else {
        let r = valid_directives(segs.drop_last());
        match parse_directive(segs.last()) {
            Ok(d) => r.push(d),
            Err(_) => r,
        }
    }
}

/// Where a directive of weight `q` goes in `r`: after the last directive whose
/// weight is at least `q`.
pub open spec fn insert_pos(r: Seq<DirectiveModel>, q: int) -> int
    decreases r.len(),
{
    if r.len() == 0 {
        0
    } else if r.last().q >= q {
        r.len() as int
    } else {
        insert_pos(r.drop_last(), q)
    }
}

pub proof fn lemma_insert_pos_bounds(r: Seq<DirectiveModel>, q: int)
    ensures
        0 <= insert_pos(r, q) <= r.len(),
    decreases r.len(),
{
    if r.len() > 0 && r.last().q < q {
        lemma_insert_pos_bounds(r.drop_last(), q);
    }
}

/// `d` put into `r` after every directive of at least its weight.
pub open spec fn insert_by_weight(r: Seq<DirectiveModel>, d: DirectiveModel) -> Seq<
    DirectiveModel,
> {
    r.insert(insert_pos(r, d.q), d)
}

/// The directives stably ordered by weight, heaviest first.
pub open spec fn sort_by_weight(s: Seq<DirectiveModel>) -> Seq<DirectiveModel>
    decreases s.len(),
{
    if s.len() == 0 {
        Seq::empty()
    } else {
        insert_by_weight(sort_by_weight(s.drop_last()), s.last())
    }
}

/// What an `Accept` header value parses to: its comma-separated elements
/// parsed one by one, the malformed ones skipped, ordered by weight.
pub open spec fn accept_directives(raw: Seq<char>) -> Seq<DirectiveModel> {
    sort_by_weight(valid_directives(split_all(raw, ',')))
}

/// Splits `raw` at its commas, parses each element, skips the malformed ones
/// and orders the rest by weight, heaviest first, keeping the header's order
/// among equal weights.
pub fn parse_accept(header_value: &str) -> (r: Vec<Directive>)
    ensures
        models(r@) == accept_directives(header_value@),
        forall|i: int| 0 <= i < r.len() ==> (#[trigger] r@[i]).media_type.wf() && r@[i].q <= 1000,
{
    let v = chars_of(header_value);
    let comma = vec![','];
    assert(comma@ =~= seq![',']);
    let mut r: Vec<Directive> = Vec::new();
    let mut start: usize = 0;
    let ghost mut done: Seq<Seq<char>> = Seq::empty();
    assert(v@.skip(0) =~= v@);
    loop
        invariant
            start <= v.len(),
            v@ == header_value@,
            comma@ == seq![','],
            done + split_all(v@.skip(start as int), ',') == split_all(v@, ','),
            models(r@) == sort_by_weight(valid_directives(done)),
            forall|i: int| 0 <= i < r.len() ==> (#[trigger] r@[i]).media_type.wf() && r@[i].q <= 1000,
        decreases v.len() - start,
    {
        let ghost rest = v@.skip(start as int);
        let found = find_from(&v, &comma, start);
        let end = match found {
            Some(i) => i,
            None => v.len(),
        };
        proof {
            match found {
                Some(i) => {
                    assert(first_at(rest, seq![','], i - start)) by {
                        assert(rest.subrange(i - start, i - start + 1) =~= v@.subrange(i as int, i + 1));
                        assert forall|j: int| 0 <= j < i - start implies !occurs_at(rest, seq![','], j) by {
                            assert(rest.subrange(j, j + 1) =~= v@.subrange(start + j, start + j + 1));
                            assert(!occurs_at(v@, comma@, start + j));
                        }
                    }
                    lemma_split_once_at(rest, seq![','], i - start);
                    assert(rest.take(i - start) =~= v@.subrange(start as int, i as int));
                    assert(rest.skip(i - start + 1) =~= v@.skip(i + 1));
                },
                None => {
                    assert forall|j: int| !occurs_at(rest, seq![','], j) by {
                        if 0 <= j && j + 1 <= rest.len() {
                            assert(rest.subrange(j, j + 1) =~= v@.subrange(start + j, start + j + 1));
                            assert(!occurs_at(v@, comma@, start + j));
                        }
                    }
                    lemma_split_once_none(rest, seq![',']);
                    assert(rest =~= v@.subrange(start as int, v.len() as int));
                },
            }
        }
        let seg = string_of(&v, start, end);
        let ghost seg_v = seg@;
        let parsed = parse_accept_directive(seg.as_str());
        proof {
            assert((done.push(seg_v)).drop_last() =~= done);
        }
        match parsed {
            Ok(d) => {
                let ghost dm = d@;
                let ghost old_r = r@;
                let pos = insert_position(&r, d.q);
                proof {
                    lemma_insert_pos_bounds(models(old_r), dm.q);
                }
                assert(d.media_type.wf() && d.q <= 1000);
                r.insert(pos, d);
                proof {
                    assert(models(r@) =~= models(old_r).insert(pos as int, dm));
                    assert(valid_directives(done.push(seg_v)) == valid_directives(done).push(dm));
                    assert(valid_directives(done).push(dm).drop_last() =~= valid_directives(done));
                    assert(models(r@) == sort_by_weight(valid_directives(done.push(seg_v))));
                    assert forall|k: int| 0 <= k < r.len() implies (#[trigger] r@[k]).media_type.wf()
                        && r@[k].q <= 1000 by {
                        if k < pos {
                            assert(r@[k] == old_r[k]);
                        } else if k > pos {
                            assert(r@[k] == old_r[k - 1]);
                        } else {
                            assert(r@[k]@ == dm);
                        }
                    }
                }
            },
            Err(_) => {
                assert(valid_directives(done.push(seg_v)) == valid_directives(done));
            },
        }
        proof {
            done = done.push(seg_v);
        }
        match found {
            Some(i) => {
                proof {
                    assert(done + split_all(v@.skip(i + 1), ',') =~= split_all(v@, ','));
                }
                start = i + 1;
            },
            None => {
                assert(done =~= split_all(v@, ','));
                assert(models(r@) == sort_by_weight(valid_directives(split_all(v@, ','))));
                assert(v@ == header_value@);
                return r;
            },
        }
    }
}

/// Where a directive of weight `q` goes in `r`.
fn insert_position(r: &Vec<Directive>, q: u16) -> (p: usize)
    ensures
        p as int == insert_pos(models(r@), q as int),
{
    let mut j: usize = r.len();
    assert(models(r@).take(r.len() as int) =~= models(r@));
    while j > 0 && r[j - 1].q < q
        invariant
            j <= r.len(),
            insert_pos(models(r@).take(j as int), q as int) == insert_pos(models(r@), q as int),
        decreases j,
    {
        assert(models(r@).take(j as int).drop_last() =~= models(r@).take(j - 1));
        j = j - 1;
    }
    proof {
        if j > 0 {
            assert(models(r@).take(j as int).last() == r@[j - 1]@);
        }
    }
    assert(models(r@).take(r.len() as int) =~= models(r@));
    j
}

/// The directives of weight `k`.
pub open spec fn weight_is(k: int) -> spec_fn(DirectiveModel) -> bool {
    |d: DirectiveModel| d.q == k
}

/// Heavier directives come first.
pub open spec fn sorted_by_weight(r: Seq<DirectiveModel>) -> bool {
    forall|i: int, j: int| 0 <= i < j < r.len() ==> r[i].q >= r[j].q
}

proof fn lemma_insert_pos_sorted(r: Seq<DirectiveModel>, q: int)
    requires
        sorted_by_weight(r),
    ensures
        forall|i: int| 0 <= i < insert_pos(r, q) ==> r[i].q >= q,
        forall|i: int| insert_pos(r, q) <= i < r.len() ==> r[i].q < q,
    decreases r.len(),
{
    lemma_insert_pos_bounds(r, q);
    if r.len() > 0 {
        if r.last().q < q {
            let r0 = r.drop_last();
            lemma_insert_pos_sorted(r0, q);
            lemma_insert_pos_bounds(r0, q);
            assert forall|i: int| insert_pos(r, q) <= i < r.len() implies r[i].q < q by {
                if i < r.len() - 1 {
                    assert(r[i] == r0[i]);
                }
            }
            assert forall|i: int| 0 <= i < insert_pos(r, q) implies r[i].q >= q by {
                assert(r[i] == r0[i]);
            }
        }
    }
}

proof fn lemma_filter_none_of_weight(b: Seq<DirectiveModel>, k: int)
    requires
        forall|i: int| 0 <= i < b.len() ==> b[i].q < k,
    ensures
        b.filter(weight_is(k)) == Seq::<DirectiveModel>::empty(),
{
    let f = weight_is(k);
    if b.filter(f).len() > 0 {
        let x = b.filter(f)[0];
        b.lemma_filter_pred(f, 0);
        assert(b.filter(f).contains(x));
        b.lemma_filter_contains_rev(f, x);
    }
    assert(b.filter(f) =~= Seq::<DirectiveModel>::empty());
}

/// Ordering by weight puts heavier directives first, and keeps the
/// directives of each weight in the order in which they came.
pub proof fn lemma_sort_by_weight(s: Seq<DirectiveModel>)
    ensures
        sorted_by_weight(sort_by_weight(s)),
        forall|k: int| #[trigger] sort_by_weight(s).filter(weight_is(k)) == s.filter(weight_is(k)),
    decreases s.len(),
{
    if s.len() > 0 {
        let s0 = s.drop_last();
        let d = s.last();
        lemma_sort_by_weight(s0);
        let r = sort_by_weight(s0);
        let p = insert_pos(r, d.q);
        lemma_insert_pos_sorted(r, d.q);
        lemma_insert_pos_bounds(r, d.q);
        let out = r.insert(p, d);
        assert(out == sort_by_weight(s));
        assert forall|i: int, j: int| 0 <= i < j < out.len() implies out[i].q >= out[j].q by {
            if j < p {
                assert(out[i] == r[i] && out[j] == r[j]);
            } else if j == p {
                assert(out[i] == r[i]);
            } else if i < p {
                assert(out[i] == r[i] && out[j] == r[j - 1]);
            } else if i == p {
                assert(out[j] == r[j - 1]);
            } else {
                assert(out[i] == r[i - 1] && out[j] == r[j - 1]);
            }
        }
        assert forall|k: int| #[trigger] out.filter(weight_is(k)) == s.filter(weight_is(k)) by {
            let f = weight_is(k);
            let a = r.take(p);
            let b = r.skip(p);
            assert(out =~= a + seq![d] + b);
            assert(r =~= a + b);
            assert(s0 + seq![d] =~= s);
            Seq::filter_distributes_over_add(a + seq![d], b, f);
            Seq::filter_distributes_over_add(a, seq![d], f);
            Seq::filter_distributes_over_add(a, b, f);
            Seq::filter_distributes_over_add(s0, seq![d], f);
            reveal_with_fuel(Seq::filter, 2);
            assert(seq![d].drop_last() =~= Seq::<DirectiveModel>::empty());
            if d.q == k {
                lemma_filter_none_of_weight(b, k);
                assert(seq![d].filter(f) =~= seq![d]);
            } else {
                assert(seq![d].filter(f) =~= Seq::<DirectiveModel>::empty());
            }
            assert(out.filter(f) =~= s.filter(f));
        }
    }
}

/// What an `Accept` header parses to is ordered by weight, heaviest first, and
/// directives of equal weight keep the order in which the header lists them.
pub proof fn lemma_accept_order(raw: Seq<char>)
    ensures
        sorted_by_weight(accept_directives(raw)),
        forall|k: int|
            #[trigger] accept_directives(raw).filter(weight_is(k)) == valid_directives(
                split_all(raw, ','),
            ).filter(weight_is(k)),
{
    lemma_sort_by_weight(valid_directives(split_all(raw, ',')));
}

} // verus!
