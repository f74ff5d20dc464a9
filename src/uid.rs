use vstd::prelude::*;
use vstd::string::*;

verus! {

/// Lexicographic order on character sequences: the order that `Ord` gives
/// `str`, since UTF-8 keeps the order of code points.
pub open spec fn lex_le(a: Seq<char>, b: Seq<char>) -> bool
    decreases a.len(),
{
    if a.len() == 0 {
        true
    } else if b.len() == 0 {
        false
    } else if a[0] == b[0] {
        lex_le(a.drop_first(), b.drop_first())
    } else {
        a[0] < b[0]
    }
}

proof fn lemma_lex_total(a: Seq<char>, b: Seq<char>)
    ensures
        lex_le(a, b) || lex_le(b, a),
    decreases a.len(),
{
    if a.len() > 0 && b.len() > 0 && a[0] == b[0] {
        lemma_lex_total(a.drop_first(), b.drop_first());
    }
}



proof fn lemma_lex_antisymmetric(a: Seq<char>, b: Seq<char>)
    requires
        lex_le(a, b),
        lex_le(b, a),
    ensures
        a == b,
    decreases a.len(),
{
    if a.len() > 0 && b.len() > 0 {
        lemma_lex_antisymmetric(a.drop_first(), b.drop_first());
        assert(a =~= seq![a[0]] + a.drop_first());
        assert(b =~= seq![b[0]] + b.drop_first());
    } else {
        assert(a =~= b);
    }
}

proof fn lemma_lex_transitive(a: Seq<char>, b: Seq<char>, c: Seq<char>)
    requires
        lex_le(a, b),
        lex_le(b, c),
    ensures
        lex_le(a, c),
    decreases a.len(),
{
    if a.len() > 0 && b.len() > 0 && c.len() > 0 && a[0] == b[0] && b[0] == c[0] {
        lemma_lex_transitive(a.drop_first(), b.drop_first(), c.drop_first());
    }
}

/// Compares two strings character by character.
fn lex_le_exec(a: &str, b: &str) -> (r: bool)
    ensures
        r == lex_le(a@, b@),
{
    let la = a.unicode_len();
    let lb = b.unicode_len();
    let mut i: usize = 0;
    assert(a@.skip(0) =~= a@);
    assert(b@.skip(0) =~= b@);
    while i < la && i < lb
        invariant
            la == a@.len(),
            lb == b@.len(),
            i <= la,
            i <= lb,
            lex_le(a@, b@) == lex_le(a@.skip(i as int), b@.skip(i as int)),
        decreases la - i,
    {
        let ca = a.get_char(i);
        let cb = b.get_char(i);
        if ca != cb {
            return ca < cb;
        }
        assert(a@.skip(i as int).drop_first() =~= a@.skip(i + 1));
        assert(b@.skip(i as int).drop_first() =~= b@.skip(i + 1));
        i = i + 1;
    }
    i == la
}

/// Every element is at most each element that follows it.
pub open spec fn is_sorted(s: Seq<Seq<char>>) -> bool {
    forall|i: int, j: int| 0 <= i < j < s.len() ==> lex_le(#[trigger] s[i], #[trigger] s[j])
}

/// The domains in ascending order: the one sorted arrangement of their
/// multiset.
pub open spec fn sorted_domains(ds: Seq<Seq<char>>) -> Seq<Seq<char>> {
    choose|t: Seq<Seq<char>>| is_sorted(t) && t.to_multiset() == ds.to_multiset()
}

proof fn lemma_sorted_unique(a: Seq<Seq<char>>, b: Seq<Seq<char>>)
    requires
        is_sorted(a),
        is_sorted(b),
        a.to_multiset() == b.to_multiset(),
    ensures
        a == b,
    decreases a.len(),
{
    broadcast use vstd::seq_lib::group_to_multiset_ensures;

    assert(a.to_multiset().len() == a.len());
    assert(b.to_multiset().len() == b.len());
    if a.len() > 0 {
        assert(a.to_multiset().count(a[0]) > 0);
        assert(b.contains(a[0]));
        let k = choose|k: int| 0 <= k < b.len() && b[k] == a[0];
        assert(b.to_multiset().count(b[0]) > 0);
        assert(a.contains(b[0]));
        let m = choose|m: int| 0 <= m < a.len() && a[m] == b[0];
        if k > 0 {
            assert(lex_le(b[0], b[k]));
        }
        if m > 0 {
            assert(lex_le(a[0], a[m]));
        }
        if k > 0 && m > 0 {
            lemma_lex_antisymmetric(a[0], b[0]);
        }
        assert(a.remove(0).to_multiset() == a.to_multiset().remove(a[0]));
        assert(b.remove(0).to_multiset() == b.to_multiset().remove(b[0]));
        assert(a.remove(0) =~= a.drop_first());
        assert(b.remove(0) =~= b.drop_first());
        lemma_sorted_unique(a.drop_first(), b.drop_first());
        assert forall|k: int| 0 <= k < a.len() implies a[k] == b[k] by {
            if k > 0 {
                assert(a[k] == a.drop_first()[k - 1]);
                assert(b[k] == b.drop_first()[k - 1]);
            }
        }
        assert(a =~= b);
    }
}

proof fn lemma_insert_keeps_sorted(t: Seq<Seq<char>>, x: Seq<char>, j: int)
    requires
        is_sorted(t),
        0 <= j <= t.len(),
        forall|k: int| 0 <= k < j ==> !lex_le(x, #[trigger] t[k]),
        j < t.len() ==> lex_le(x, t[j]),
    ensures
        is_sorted(t.insert(j, x)),
{
    let nt = t.insert(j, x);
    assert forall|a: int, b: int| 0 <= a < b < nt.len() implies lex_le(
        #[trigger] nt[a],
        #[trigger] nt[b],
    ) by {
        if a < j && b == j {
            lemma_lex_total(x, t[a]);
        } else if a < j && b > j {
            assert(lex_le(t[a], t[b - 1]));
        } else if a == j && b > j {
            if b - 1 > j {
                assert(lex_le(t[j], t[b - 1]));
                lemma_lex_transitive(x, t[j], t[b - 1]);
            }
        } else if a > j {
            assert(lex_le(t[a - 1], t[b - 1]));
        }
    }
}

/// Where `x` goes in a sorted arrangement: before the first element that it
/// does not exceed.
spec fn insert_position(x: Seq<char>, t: Seq<Seq<char>>) -> int
    decreases t.len(),
{
    if t.len() == 0 || lex_le(x, t[0]) {
        0
    } else {
        1 + insert_position(x, t.drop_first())
    }
}

proof fn lemma_insert_position(x: Seq<char>, t: Seq<Seq<char>>)
    ensures
        0 <= insert_position(x, t) <= t.len(),
        forall|k: int| 0 <= k < insert_position(x, t) ==> !lex_le(x, #[trigger] t[k]),
        insert_position(x, t) < t.len() ==> lex_le(x, t[insert_position(x, t)]),
    decreases t.len(),
{
    if t.len() > 0 && !lex_le(x, t[0]) {
        lemma_insert_position(x, t.drop_first());
        assert forall|k: int| 0 <= k < insert_position(x, t) implies !lex_le(x, #[trigger] t[k]) by {
            if k > 0 {
                assert(t[k] == t.drop_first()[k - 1]);
            }
        }
    }
}

/// Every list of domains has a sorted arrangement.
pub proof fn lemma_sorted_exists(ds: Seq<Seq<char>>)
    ensures
        is_sorted(sorted_domains(ds)),
        sorted_domains(ds).to_multiset() == ds.to_multiset(),
    decreases ds.len(),
{
    broadcast use vstd::seq_lib::group_to_multiset_ensures;

    if ds.len() == 0 {
        assert(is_sorted(ds));
    } else {
        let rest = ds.drop_last();
        lemma_sorted_exists(rest);
        let t = sorted_domains(rest);
        let x = ds.last();
        lemma_insert_position(x, t);
        let j = insert_position(x, t);
        lemma_insert_keeps_sorted(t, x, j);
        vstd::seq_lib::to_multiset_insert(t, j, x);
        vstd::seq_lib::to_multiset_build(rest, x);
        assert(rest.push(x) =~= ds);
        let w = t.insert(j, x);
        assert(is_sorted(w) && w.to_multiset() == ds.to_multiset());
    }
}

/// Any sorted arrangement of the domains is the one `sorted_domains` names.
pub proof fn lemma_sorted_domains_is(t: Seq<Seq<char>>, ds: Seq<Seq<char>>)
    requires
        is_sorted(t),
        t.to_multiset() == ds.to_multiset(),
    ensures
        sorted_domains(ds) == t,
{
    let u = sorted_domains(ds);
    assert(is_sorted(u) && u.to_multiset() == ds.to_multiset());
    lemma_sorted_unique(u, t);
}

/// Sorts a copy of the domains in ascending order.
pub fn sort_domains(domains: &Vec<String>) -> (r: Vec<String>)
    ensures
        r.deep_view() == sorted_domains(domains.deep_view()),
{
    broadcast use vstd::seq_lib::group_to_multiset_ensures;

    let ghost ds = domains.deep_view();
    let mut r: Vec<String> = Vec::new();
    let mut i: usize = 0;
    while i < domains.len()
        invariant
            i <= domains.len(),
            ds == domains.deep_view(),
            is_sorted(r.deep_view()),
            r.deep_view().to_multiset() == ds.take(i as int).to_multiset(),
        decreases domains.len() - i,
    {
        let d = domains[i].clone();
        let mut j: usize = 0;
        while j < r.len()
            invariant
                j <= r.len(),
                forall|k: int| 0 <= k < j ==> !lex_le(d@, #[trigger] r.deep_view()[k]),
            ensures
                j < r.len() ==> lex_le(d@, r.deep_view()[j as int]),
                forall|k: int| 0 <= k < j ==> !lex_le(d@, #[trigger] r.deep_view()[k]),
            decreases r.len() - j,
        {
            if lex_le_exec(d.as_str(), r[j].as_str()) {
                break;
            }
            j = j + 1;
        }
        let ghost old_r = r.deep_view();
        r.insert(j, d);
        proof {
            assert(r.deep_view() =~= old_r.insert(j as int, d@));
            lemma_insert_keeps_sorted(old_r, d@, j as int);
            assert(ds.take(i + 1) =~= ds.take(i as int).push(d@));
            vstd::seq_lib::to_multiset_insert(old_r, j as int, d@);
            vstd::seq_lib::to_multiset_build(ds.take(i as int), d@);
        }
        i = i + 1;
    }
    proof {
        assert(ds.take(i as int) =~= ds);
        lemma_sorted_domains_is(r.deep_view(), ds);
    }
    r
}


/// Each domain followed by a comma, in order.
pub open spec fn joined(ds: Seq<Seq<char>>) -> Seq<char>
    decreases ds.len(),
{
    if ds.len() == 0 {
        Seq::empty()
    } else {
        joined(ds.drop_last()) + ds.last() + seq![',']
    }
}

/// The text that is hashed for a set of domains.
pub open spec fn digest_input_of(ds: Seq<Seq<char>>) -> Seq<char> {
    joined(sorted_domains(ds))
}

/// The identifier of a set of domains.
pub open spec fn uid_of(ds: Seq<Seq<char>>) -> Seq<char> {
    sha256_hex_of(digest_input_of(ds))
}

/// The SHA-256 digest of the UTF-8 encoding of a text, written as lowercase
/// hexadecimal.
pub uninterp spec fn sha256_hex_of(s: Seq<char>) -> Seq<char>;

/// A digit of lowercase hexadecimal.
pub open spec fn is_lower_hex_digit(c: char) -> bool {
    ('0' <= c && c <= '9') || ('a' <= c && c <= 'f')
}

/// Relies on sha2's `Sha256::digest` for the 32-byte digest of the bytes, and
/// on generic_array's `LowerHex` for two lowercase digits per byte.
#[verifier::external_body]
fn sha256_hex(s: &str) -> (r: String)
    ensures
        r@ == sha256_hex_of(s@),
        r@.len() == 64,
        forall|i: int| 0 <= i < r@.len() ==> is_lower_hex_digit(#[trigger] r@[i]),
{
    format!("{:x}", <sha2::Sha256 as sha2::Digest>::digest(s.as_bytes()))
}

/// Builds the text that is hashed for a set of domains: the domains in
/// ascending order, each followed by a comma.
pub fn digest_input(domains: &Vec<String>) -> (r: String)
    ensures
        r@ == digest_input_of(domains.deep_view()),
{
    let sorted = sort_domains(domains);
    let ghost ds = sorted.deep_view();
    let mut r = String::new();
    let mut i: usize = 0;
    proof {
        reveal_strlit(",");
        assert(ds.take(0) =~= Seq::<Seq<char>>::empty());
    }
    while i < sorted.len()
        invariant
            i <= sorted.len(),
            ds == sorted.deep_view(),
            r@ == joined(ds.take(i as int)),
            ","@ == seq![','],
        decreases sorted.len() - i,
    {
        r.append(sorted[i].as_str());
        r.append(",");
        assert(ds.take(i + 1).drop_last() =~= ds.take(i as int));
        i = i + 1;
    }
    assert(ds.take(i as int) =~= ds);
    r
}

/// The identifier of a set of domains: a fixed-width lowercase hexadecimal
/// digest that depends on the domains' multiset alone.
pub struct Uid {
    value: String,
}

impl View for Uid {
    type V = Seq<char>;

    closed spec fn view(&self) -> Seq<char> {
        self.value@
    }
}

impl Uid {
    /// Computes the identifier of the given domains.
    pub fn new(domains: &Vec<String>) -> (r: Uid)
        ensures
            r@ == uid_of(domains.deep_view()),
            r@.len() == 64,
            forall|i: int| 0 <= i < r@.len() ==> is_lower_hex_digit(#[trigger] r@[i]),
    {
        let input = digest_input(domains);
        Uid { value: sha256_hex(input.as_str()) }
    }

    /// The identifier as text.
    pub fn as_str(&self) -> (r: &str)
        ensures
            r@ == self@,
    {
        self.value.as_str()
    }

    /// The identifier as an owned string.
    pub fn to_string(&self) -> (r: String)
        ensures
            r@ == self@,
    {
        self.value.clone()
    }
}

/// The identifier does not depend on the order in which the domains are
/// given: any two lists holding the same domains, each as many times, yield
/// the same identifier.
pub proof fn lemma_uid_order_independent(d1: Seq<Seq<char>>, d2: Seq<Seq<char>>)
    requires
        d1.to_multiset() == d2.to_multiset(),
    ensures
        uid_of(d1) == uid_of(d2),
{
}


proof fn lemma_joined_ends_with_comma(ds: Seq<Seq<char>>)
    requires
        ds.len() > 0,
    ensures
        joined(ds).len() > 0,
        joined(ds).last() == ',',
{
}

/// No domain holds a comma.
pub open spec fn comma_free(ds: Seq<Seq<char>>) -> bool {
    forall|i: int| 0 <= i < ds.len() ==> !(#[trigger] ds[i]).contains(',')
}

proof fn lemma_joined_injective(a: Seq<Seq<char>>, b: Seq<Seq<char>>)
    requires
        comma_free(a),
        comma_free(b),
        joined(a) == joined(b),
    ensures
        a == b,
    decreases a.len() + b.len(),
{
    if a.len() == 0 && b.len() > 0 {
        lemma_joined_ends_with_comma(b);
    } else if a.len() > 0 && b.len() == 0 {
        lemma_joined_ends_with_comma(a);
    } else if a.len() > 0 && b.len() > 0 {
        let pa = joined(a.drop_last());
        let pb = joined(b.drop_last());
        let la = a.last();
        let lb = b.last();
        let x = pa + la;
        assert(x =~= joined(a).drop_last());
        assert(pb + lb =~= joined(b).drop_last());
        assert(!la.contains(','));
        assert(!lb.contains(','));
        if la.len() < lb.len() {
            let pos = x.len() - la.len() - 1;
            if pa.len() == 0 {
                assert(x.len() == la.len());
            } else {
                lemma_joined_ends_with_comma(a.drop_last());
                assert(x[pos] == ',');
                assert(lb[pos - pb.len()] == ',');
            }
        } else if lb.len() < la.len() {
            let pos = x.len() - lb.len() - 1;
            if pb.len() == 0 {
                assert((pb + lb).len() == lb.len());
            } else {
                lemma_joined_ends_with_comma(b.drop_last());
                assert((pb + lb)[pos] == ',');
                assert(la[pos - pa.len()] == ',');
            }
        } else {
            assert(la =~= x.subrange(pa.len() as int, x.len() as int));
            assert(lb =~= (pb + lb).subrange(pb.len() as int, x.len() as int));
            assert(pa =~= x.subrange(0, pa.len() as int));
            assert(pb =~= (pb + lb).subrange(0, pb.len() as int));
            lemma_joined_injective(a.drop_last(), b.drop_last());
            assert(a =~= a.drop_last().push(la));
            assert(b =~= b.drop_last().push(lb));
        }
    }
}

/// The sorted arrangement holds the same domains, so it is comma free too.
proof fn lemma_sorted_comma_free(ds: Seq<Seq<char>>)
    requires
        comma_free(ds),
    ensures
        comma_free(sorted_domains(ds)),
{
    broadcast use vstd::seq_lib::group_to_multiset_ensures;

    lemma_sorted_exists(ds);
    let t = sorted_domains(ds);
    assert forall|i: int| 0 <= i < t.len() implies !(#[trigger] t[i]).contains(',') by {
        assert(t.to_multiset().count(t[i]) > 0);
        assert(ds.contains(t[i]));
    }
}

/// Two lists of domains that differ as multisets, with no comma inside a
/// domain, lead to different hashed texts; the identifiers then differ
/// unless SHA-256 collides.
pub proof fn lemma_digest_input_distinct(d1: Seq<Seq<char>>, d2: Seq<Seq<char>>)
    requires
        d1.to_multiset() != d2.to_multiset(),
        comma_free(d1),
        comma_free(d2),
    ensures
        digest_input_of(d1) != digest_input_of(d2),
{
    lemma_sorted_exists(d1);
    lemma_sorted_exists(d2);
    lemma_sorted_comma_free(d1);
    lemma_sorted_comma_free(d2);
    if digest_input_of(d1) == digest_input_of(d2) {
        lemma_joined_injective(sorted_domains(d1), sorted_domains(d2));
    }
}

} // verus!
