use vstd::prelude::*;
use vstd::string::*;
use crate::uid::{comma_free, digest_input_of, lemma_digest_input_distinct};

verus! {

/// The characters of Unicode's White_Space property.
pub open spec fn is_white_space(c: char) -> bool {
    ('\u{9}' <= c && c <= '\u{d}') || c == ' ' || c == '\u{85}' || c == '\u{a0}' || c
        == '\u{1680}' || ('\u{2000}' <= c && c <= '\u{200a}') || c == '\u{2028}' || c
        == '\u{2029}' || c == '\u{202f}' || c == '\u{205f}' || c == '\u{3000}'
}

/// Relies on `char::is_whitespace`, which tests the White_Space property.
#[verifier::external_body]
fn is_whitespace(c: char) -> (r: bool)
    ensures
        r == is_white_space(c),
{
    c.is_whitespace()
}

/// The text without its leading white space.
pub open spec fn trim_start(s: Seq<char>) -> Seq<char>
    decreases s.len(),
{
    if s.len() > 0 && is_white_space(s[0]) {
        trim_start(s.drop_first())
    } else {
        s
    }
}

/// The text without its trailing white space.
pub open spec fn trim_end(s: Seq<char>) -> Seq<char>
    decreases s.len(),
{
    if s.len() > 0 && is_white_space(s.last()) {
        trim_end(s.drop_last())
    } else {
        s
    }
}

/// The text without white space at either end.
pub open spec fn trimmed(s: Seq<char>) -> Seq<char> {
    trim_end(trim_start(s))
}

/// The pieces of a text between its commas: one more than there are commas.
pub open spec fn split_commas(s: Seq<char>) -> Seq<Seq<char>>
    decreases s.len(),
{
    if s.len() == 0 {
        seq![Seq::empty()]
    } else {
        let rest = split_commas(s.drop_last());
        if s.last() == ',' {
            rest.push(Seq::empty())
        } else {
            rest.update(rest.len() - 1, rest.last().push(s.last()))
        }
    }
}

/// The domains that a comma-separated list names: each piece trimmed, the
/// empty ones left out.
pub open spec fn domains_of(raw: Seq<char>) -> Seq<Seq<char>> {
    split_commas(raw).map_values(|p: Seq<char>| trimmed(p)).filter(|t: Seq<char>| t.len() > 0)
}

/// The characters of `s` from `lo` to `hi`, trimmed.
fn trimmed_range(s: &str, lo: usize, hi: usize) -> (r: String)
    requires
        lo <= hi <= s@.len(),
    ensures
        r@ == trimmed(s@.subrange(lo as int, hi as int)),
{
    let mut a = lo;
    while a < hi && is_whitespace(s.get_char(a))
        invariant
            lo <= a <= hi <= s@.len(),
            trim_start(s@.subrange(lo as int, hi as int)) == trim_start(
                s@.subrange(a as int, hi as int),
            ),
        decreases hi - a,
    {
        assert(s@.subrange(a as int, hi as int).drop_first() =~= s@.subrange(a + 1, hi as int));
        a = a + 1;
    }
    let mut b = hi;
    while b > a && is_whitespace(s.get_char(b - 1))
        invariant
            lo <= a <= b <= hi <= s@.len(),
            trim_end(s@.subrange(a as int, hi as int)) == trim_end(
                s@.subrange(a as int, b as int),
            ),
        decreases b - a,
    {
        assert(s@.subrange(a as int, b as int).drop_last() =~= s@.subrange(a as int, b - 1));
        b = b - 1;
    }
    String::from_str(s.substring_char(a, b))
}

/// Reads a comma-separated list of domains: splits it at each comma, trims
/// white space from each piece, and leaves out the pieces that are empty.
pub fn parse_domains(raw: &str) -> (r: Vec<String>)
    ensures
        r.deep_view() == domains_of(raw@),
{
    let n = raw.unicode_len();
    let mut r: Vec<String> = Vec::new();
    let ghost done: Seq<Seq<char>> = Seq::empty();
    let mut start: usize = 0;
    let mut i: usize = 0;
    assert(raw@.take(0) =~= Seq::<char>::empty());
    assert(raw@.subrange(0, 0) =~= Seq::<char>::empty());
    while i < n
        invariant
            n == raw@.len(),
            start <= i <= n,
            split_commas(raw@.take(i as int)) == done.push(raw@.subrange(start as int, i as int)),
            r.deep_view() == done.map_values(|p: Seq<char>| trimmed(p)).filter(
                |t: Seq<char>| t.len() > 0,
            ),
        decreases n - i,
    {
        let c = raw.get_char(i);
        let ghost prev = raw@.take(i as int);
        assert(raw@.take(i + 1).drop_last() =~= prev);
        if c == ',' {
            let piece = trimmed_range(raw, start, i);
            let ghost old_r = r.deep_view();
            let ghost p = raw@.subrange(start as int, i as int);
            if piece.unicode_len() > 0 {
                r.push(piece);
            }
            proof {
                let f = |q: Seq<char>| trimmed(q);
                let keep = |t: Seq<char>| t.len() > 0;
                assert(done.push(p).map_values(f) =~= done.map_values(f).push(trimmed(p)));
                let m = done.map_values(f);
                assert(m.push(trimmed(p)).drop_last() =~= m);
                reveal(Seq::filter);
                reveal(Seq::filter);
        assert(m.push(trimmed(p)).last() == trimmed(p));
        assert(keep(trimmed(p)) == (trimmed(p).len() > 0));
                assert(m.push(trimmed(p)).filter(keep) == (if keep(trimmed(p)) {
                    m.filter(keep).push(trimmed(p))
                } else {
                    m.filter(keep)
                }));
                if trimmed(p).len() > 0 {
                    assert(r.deep_view() =~= old_r.push(trimmed(p)));
                }
                assert(r.deep_view() =~= done.push(p).map_values(f).filter(keep));
                done = done.push(p);
                assert(raw@.subrange(i + 1, i + 1) =~= Seq::<char>::empty());
            }
            start = i + 1;
        } else {
            assert(raw@.subrange(start as int, i + 1) =~= raw@.subrange(
                start as int,
                i as int,
            ).push(c));
            assert(done.push(raw@.subrange(start as int, i as int)).update(
                done.len() as int,
                raw@.subrange(start as int, i + 1),
            ) =~= done.push(raw@.subrange(start as int, i + 1)));
        }
        i = i + 1;
    }
    let piece = trimmed_range(raw, start, n);
    let ghost p = raw@.subrange(start as int, n as int);
    let ghost old_r = r.deep_view();
    if piece.unicode_len() > 0 {
        r.push(piece);
    }
    proof {
        let f = |q: Seq<char>| trimmed(q);
        let keep = |t: Seq<char>| t.len() > 0;
        assert(raw@.take(n as int) =~= raw@);
        assert(done.push(p).map_values(f) =~= done.map_values(f).push(trimmed(p)));
        let m = done.map_values(f);
        assert(m.push(trimmed(p)).drop_last() =~= m);
        reveal(Seq::filter);
        assert(m.push(trimmed(p)).last() == trimmed(p));
        assert(keep(trimmed(p)) == (trimmed(p).len() > 0));
                assert(m.push(trimmed(p)).filter(keep) == (if keep(trimmed(p)) {
            m.filter(keep).push(trimmed(p))
        } else {
            m.filter(keep)
        }));
        if trimmed(p).len() > 0 {
            assert(r.deep_view() =~= old_r.push(trimmed(p)));
        }
        assert(r.deep_view() =~= done.push(p).map_values(f).filter(keep));
    }
    r
}


proof fn lemma_trim_start_within(s: Seq<char>, c: char)
    ensures
        trim_start(s).contains(c) ==> s.contains(c),
    decreases s.len(),
{
    if s.len() > 0 && is_white_space(s[0]) {
        lemma_trim_start_within(s.drop_first(), c);
        if s.drop_first().contains(c) {
            let k = choose|k: int| 0 <= k < s.drop_first().len() && s.drop_first()[k] == c;
            assert(s[k + 1] == c);
        }
    }
}

proof fn lemma_trim_end_within(s: Seq<char>, c: char)
    ensures
        trim_end(s).contains(c) ==> s.contains(c),
    decreases s.len(),
{
    if s.len() > 0 && is_white_space(s.last()) {
        lemma_trim_end_within(s.drop_last(), c);
        if s.drop_last().contains(c) {
            let k = choose|k: int| 0 <= k < s.drop_last().len() && s.drop_last()[k] == c;
            assert(s[k] == c);
        }
    }
}

proof fn lemma_split_comma_free(s: Seq<char>)
    ensures
        comma_free(split_commas(s)),
        split_commas(s).len() > 0,
    decreases s.len(),
{
    if s.len() > 0 {
        let rest = split_commas(s.drop_last());
        lemma_split_comma_free(s.drop_last());
        if s.last() != ',' {
            let piece = rest.last().push(s.last());
            assert forall|c: int| 0 <= c < piece.len() implies piece[c] != ',' by {
                if c < rest.last().len() {
                    assert(rest.last()[c] == piece[c]);
                    assert(!rest[rest.len() - 1].contains(','));
                }
            }
            assert(!piece.contains(','));
        }
    }
}

/// No domain read from a list holds a comma.
proof fn lemma_domains_comma_free(raw: Seq<char>)
    ensures
        comma_free(domains_of(raw)),
{
    let f = |q: Seq<char>| trimmed(q);
    let keep = |t: Seq<char>| t.len() > 0;
    let pieces = split_commas(raw);
    let m = pieces.map_values(f);
    let ds = m.filter(keep);
    lemma_split_comma_free(raw);
    assert forall|i: int| 0 <= i < ds.len() implies !(#[trigger] ds[i]).contains(',') by {
        assert(ds.contains(ds[i]));
        m.lemma_filter_contains_rev(keep, ds[i]);
        let k = choose|k: int| 0 <= k < m.len() && m[k] == ds[i];
        assert(!pieces[k].contains(','));
        lemma_trim_start_within(pieces[k], ',');
        lemma_trim_end_within(trim_start(pieces[k]), ',');
    }
}

/// Two domain lists whose domains differ as multisets are hashed from
/// different texts; the identifiers then differ unless SHA-256 collides.
pub proof fn lemma_distinct_lists_distinct_input(raw1: Seq<char>, raw2: Seq<char>)
    requires
        domains_of(raw1).to_multiset() != domains_of(raw2).to_multiset(),
    ensures
        digest_input_of(domains_of(raw1)) != digest_input_of(domains_of(raw2)),
{
    lemma_domains_comma_free(raw1);
    lemma_domains_comma_free(raw2);
    lemma_digest_input_distinct(domains_of(raw1), domains_of(raw2));
}

} // verus!
