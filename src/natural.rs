//! Natural ("human") ordering of hostnames: runs of digits compare by their
//! numeric value, other runs as text, so that `host2` comes before `host10`.
use vstd::prelude::*;
use vstd::string::StrSliceExecFns;
use core::cmp::Ordering;
use crate::digits::{
    digits_in_range, digits_value, lemma_digits_concat, lemma_digits_first_difference,
    lemma_digits_zero,
};

verus! {

/// An ASCII decimal digit.
pub open spec fn is_digit(c: char) -> bool {
    '0' <= c && c <= '9'
}

/// The maximal runs of `s` that are all digits or all non-digits, in order.
pub open spec fn segments(s: Seq<char>) -> Seq<Seq<char>>
    decreases s.len(),
{
    if s.len() == 0 {
        Seq::empty()
    } else {
        let p = segments(s.drop_last());
        let c = s.last();
        if p.len() > 0 && is_digit(p.last().last()) == is_digit(c) {
            p.drop_last().push(p.last().push(c))
        } else {
            p.push(seq![c])
        }
    }
}

/// The digits of a run, as numbers.
pub open spec fn digit_seq(s: Seq<char>) -> Seq<int> {
    s.map_values(|c: char| c as int - '0' as int)
}

/// The number that a run of digits writes.
pub open spec fn number_value(s: Seq<char>) -> int {
    digits_value(digit_seq(s), 10)
}

/// Every character of `s` is a digit.
pub open spec fn all_digits(s: Seq<char>) -> bool {
    forall|k: int| 0 <= k < s.len() ==> is_digit(#[trigger] s[k])
}

/// How `x` compares with `y`.
pub open spec fn int_cmp(x: int, y: int) -> Ordering {
    if x < y {
        Ordering::Less
    } else if x > y {
        Ordering::Greater
    } else {
        Ordering::Equal
    }
}

/// The opposite ordering.
pub open spec fn flip(o: Ordering) -> Ordering {
    match o {
        Ordering::Less => Ordering::Greater,
        Ordering::Greater => Ordering::Less,
        Ordering::Equal => Ordering::Equal,
    }
}

/// Lexicographic comparison by character code.
pub open spec fn lex_cmp(a: Seq<char>, b: Seq<char>) -> Ordering
    decreases a.len(),
{
    if a.len() == 0 || b.len() == 0 {
        int_cmp(a.len() as int, b.len() as int)
    } else if a[0] != b[0] {
        int_cmp(a[0] as int, b[0] as int)
    } else {
        lex_cmp(a.drop_first(), b.drop_first())
    }
}

/// Two runs compare by value when both are numbers and as text when both
/// are text. A number against text goes where plain text order puts it:
/// before text whose first character is below the digits, after the rest.
pub open spec fn segment_cmp(a: Seq<char>, b: Seq<char>) -> Ordering {
    if is_digit(a[0]) && is_digit(b[0]) {
        int_cmp(number_value(a), number_value(b))
    } else if !is_digit(a[0]) && !is_digit(b[0]) {
        lex_cmp(a, b)
    } else if is_digit(a[0]) {
        if '0' > b[0] {
            Ordering::Greater
        } else {
            Ordering::Less
        }
    } else {
        if '0' > a[0] {
            Ordering::Less
        } else {
            Ordering::Greater
        }
    }
}

/// Run lists compare run by run; the first run pair that is not equal
/// decides, and when one list is a prefix of the other the shorter comes
/// first.
pub open spec fn segments_cmp(x: Seq<Seq<char>>, y: Seq<Seq<char>>) -> Ordering
    decreases x.len(),
{
    if x.len() == 0 || y.len() == 0 {
        int_cmp(x.len() as int, y.len() as int)
    } else {
        match segment_cmp(x[0], y[0]) {
            Ordering::Equal => segments_cmp(x.drop_first(), y.drop_first()),
            other => other,
        }
    }
}

/// The natural comparison of two strings, run by run.
pub open spec fn natural_cmp(a: Seq<char>, b: Seq<char>) -> Ordering {
    segments_cmp(segments(a), segments(b))
}

/// The order of hostnames: natural, with ties (such as `host02` and `host2`)
/// broken by plain lexicographic order, so that only equal names are equal.
#[verifier::opaque]
pub open spec fn hostname_cmp(a: Seq<char>, b: Seq<char>) -> Ordering {
    match natural_cmp(a, b) {
        Ordering::Equal => lex_cmp(a, b),
        o => o,
    }
}

/// Every character of `run` is of the class of its first.
pub open spec fn uniform(run: Seq<char>) -> bool {
    forall|k: int| 0 <= k < run.len() ==> is_digit(#[trigger] run[k]) == is_digit(run[0])
}

/// Non-empty runs, each of one class.
pub open spec fn well_formed_runs(r: Seq<Seq<char>>) -> bool {
    forall|k: int| 0 <= k < r.len() ==> (#[trigger] r[k]).len() > 0 && uniform(r[k])
}

/// Runs as text.
pub open spec fn runs_view(r: Seq<Vec<char>>) -> Seq<Seq<char>> {
    r.map_values(|v: Vec<char>| v@)
}

/// The characters of `s`.
fn char_vec(s: &String) -> (r: Vec<char>)
    ensures
        r@ == s@,
{
    let t = s.as_str();
    let n = t.unicode_len();
    let mut r: Vec<char> = Vec::new();
    let mut i: usize = 0;
    while i < n
        invariant
            i <= n,
            n == s@.len(),
            t@ == s@,
            r@ == s@.take(i as int),
        decreases n - i,
    {
        let c = t.get_char(i);
        r.push(c);
        proof {
            assert(s@.take(i + 1) =~= s@.take(i as int).push(c));
        }
        i += 1;
    }
    proof {
        assert(s@.take(n as int) =~= s@);
    }
    r
}

/// Splits `s` into its maximal digit and non-digit runs.
fn split_segments(s: &Vec<char>) -> (r: Vec<Vec<char>>)
    ensures
        runs_view(r@) == segments(s@),
        well_formed_runs(runs_view(r@)),
{
    let mut r: Vec<Vec<char>> = Vec::new();
    let mut i: usize = 0;
    while i < s.len()
        invariant
            i <= s.len(),
            runs_view(r@) == segments(s@.take(i as int)),
            well_formed_runs(runs_view(r@)),
        decreases s.len() - i,
    {
        let c = s[i];
        let ghost p = runs_view(r@);
        proof {
            assert(s@.take(i + 1).drop_last() =~= s@.take(i as int));
            assert(s@.take(i + 1).last() == c);
        }
        let n = r.len();
        let mut joined = false;
        if n > 0 {
            proof {
                assert(runs_view(r@)[n - 1] == r@[n - 1]@);
            }
            let m = r[n - 1].len();
            let d = r[n - 1][m - 1];
            proof {
                assert(p.last() == r@[n - 1]@);
                assert(p[n - 1].len() > 0);
            }
            if ('0' <= d && d <= '9') == ('0' <= c && c <= '9') {
                let mut last = r.pop().unwrap();
                last.push(c);
                r.push(last);
                joined = true;
                proof {
                    assert(runs_view(r@) =~= p.drop_last().push(p.last().push(c)));
                    let q = p.last().push(c);
                    assert(uniform(p[n - 1]));
                    assert forall|k: int| 0 <= k < q.len() implies is_digit(#[trigger] q[k])
                        == is_digit(q[0]) by {
                        if k < q.len() - 1 {
                            assert(q[k] == p.last()[k]);
                        }
                    }
                    assert forall|k: int| 0 <= k < runs_view(r@).len() implies (#[trigger] runs_view(
                        r@,
                    )[k]).len() > 0 && uniform(runs_view(r@)[k]) by {
                        if k < n - 1 {
                            assert(runs_view(r@)[k] == p[k]);
                        }
                    }
                }
            }
        }
        if !joined {
            let mut run: Vec<char> = Vec::new();
            run.push(c);
            r.push(run);
            proof {
                assert(runs_view(r@) =~= p.push(seq![c]));
                assert forall|k: int| 0 <= k < runs_view(r@).len() implies (#[trigger] runs_view(
                    r@,
                )[k]).len() > 0 && uniform(runs_view(r@)[k]) by {
                    if k < n {
                        assert(runs_view(r@)[k] == p[k]);
                    }
                }
            }
        }
        i += 1;
    }
    proof {
        assert(s@.take(s.len() as int) =~= s@);
    }
    r
}

/// Compares `a` and `b` character by character.
fn compare_text(a: &Vec<char>, b: &Vec<char>) -> (r: Ordering)
    ensures
        r == lex_cmp(a@, b@),
{
    let mut i: usize = 0;
    proof {
        assert(a@.skip(0) =~= a@);
        assert(b@.skip(0) =~= b@);
    }
    while i < a.len() && i < b.len()
        invariant
            i <= a.len(),
            i <= b.len(),
            lex_cmp(a@, b@) == lex_cmp(a@.skip(i as int), b@.skip(i as int)),
        decreases a.len() - i,
    {
        let x = a[i];
        let y = b[i];
        if x != y {
            proof {
                assert(a@.skip(i as int)[0] == x);
                assert(b@.skip(i as int)[0] == y);
            }
            if x < y {
                return Ordering::Less;
            } else {
                return Ordering::Greater;
            }
        }
        proof {
            assert(a@.skip(i as int).drop_first() =~= a@.skip(i + 1));
            assert(b@.skip(i as int).drop_first() =~= b@.skip(i + 1));
        }
        i += 1;
    }
    if a.len() < b.len() {
        Ordering::Less
    } else if a.len() > b.len() {
        Ordering::Greater
    } else {
        Ordering::Equal
    }
}

/// `a` behind as many `'0'` as make it `n` long.
fn pad_digits(a: &Vec<char>, n: usize) -> (r: Vec<char>)
    requires
        a@.len() <= n,
    ensures
        r@ == Seq::new((n - a@.len()) as nat, |k: int| '0') + a@,
{
    let z = n - a.len();
    let mut r: Vec<char> = Vec::new();
    let mut i: usize = 0;
    while i < z
        invariant
            i <= z,
            r@ == Seq::new(i as nat, |k: int| '0'),
        decreases z - i,
    {
        r.push('0');
        proof {
            assert(r@ =~= Seq::new((i + 1) as nat, |k: int| '0'));
        }
        i += 1;
    }
    let mut j: usize = 0;
    while j < a.len()
        invariant
            j <= a.len(),
            z == n - a@.len(),
            r@ == Seq::new(z as nat, |k: int| '0') + a@.take(j as int),
        decreases a.len() - j,
    {
        r.push(a[j]);
        proof {
            assert(r@ =~= Seq::new(z as nat, |k: int| '0') + a@.take(j + 1));
        }
        j += 1;
    }
    proof {
        assert(a@.take(a.len() as int) =~= a@);
    }
    r
}

/// Leading zeros do not change the value of a run of digits.
proof fn lemma_leading_zeros(z: nat, a: Seq<char>)
    ensures
        number_value(Seq::new(z, |k: int| '0') + a) == number_value(a),
{
    let zs = Seq::new(z, |k: int| '0');
    assert(digit_seq(zs + a) =~= digit_seq(zs) + digit_seq(a));
    lemma_digits_zero(digit_seq(zs), 10);
    lemma_digits_concat(digit_seq(zs), digit_seq(a), 10);
}

/// A digit run as numbers stays within `0..10`.
proof fn lemma_digit_seq_range(a: Seq<char>)
    requires
        all_digits(a),
    ensures
        digits_in_range(digit_seq(a), 10),
{
    assert forall|k: int| 0 <= k < digit_seq(a).len() implies 0 <= #[trigger] digit_seq(a)[k]
        < 10 by {
        assert(is_digit(a[k]));
    }
}

/// Compares two runs of digits by the numbers they write.
fn compare_numbers(a: &Vec<char>, b: &Vec<char>) -> (r: Ordering)
    requires
        all_digits(a@),
        all_digits(b@),
    ensures
        r == int_cmp(number_value(a@), number_value(b@)),
{
    let n = if a.len() < b.len() {
        b.len()
    } else {
        a.len()
    };
    let pa = pad_digits(a, n);
    let pb = pad_digits(b, n);
    proof {
        lemma_leading_zeros((n - a@.len()) as nat, a@);
        lemma_leading_zeros((n - b@.len()) as nat, b@);
        assert(all_digits(pa@));
        assert(all_digits(pb@));
        lemma_digit_seq_range(pa@);
        lemma_digit_seq_range(pb@);
    }
    let mut i: usize = 0;
    while i < n
        invariant
            i <= n,
            pa@.len() == n,
            pb@.len() == n,
            pa@.take(i as int) == pb@.take(i as int),
            digits_in_range(digit_seq(pa@), 10),
            digits_in_range(digit_seq(pb@), 10),
            number_value(pa@) == number_value(a@),
            number_value(pb@) == number_value(b@),
        decreases n - i,
    {
        let x = pa[i];
        let y = pb[i];
        if x != y {
            proof {
                assert forall|k: int| 0 <= k < i implies #[trigger] digit_seq(pa@)[k] == digit_seq(
                    pb@,
                )[k] by {
                    assert(pa@.take(i as int)[k] == pb@.take(i as int)[k]);
                }
                assert(digit_seq(pa@).take(i as int) =~= digit_seq(pb@).take(i as int));
            }
            if x < y {
                proof {
                    lemma_digits_first_difference(digit_seq(pa@), digit_seq(pb@), i as int, 10);
                }
                return Ordering::Less;
            } else {
                proof {
                    lemma_digits_first_difference(digit_seq(pb@), digit_seq(pa@), i as int, 10);
                }
                return Ordering::Greater;
            }
        }
        proof {
            assert(pa@.take(i + 1) =~= pa@.take(i as int).push(x));
            assert(pb@.take(i + 1) =~= pb@.take(i as int).push(y));
        }
        i += 1;
    }
    proof {
        assert(pa@ =~= pa@.take(n as int));
        assert(pb@ =~= pb@.take(n as int));
    }
    Ordering::Equal
}

/// Compares two lists of runs run by run.
fn compare_runs(x: &Vec<Vec<char>>, y: &Vec<Vec<char>>) -> (r: Ordering)
    requires
        well_formed_runs(runs_view(x@)),
        well_formed_runs(runs_view(y@)),
    ensures
        r == segments_cmp(runs_view(x@), runs_view(y@)),
{
    let ghost xv = runs_view(x@);
    let ghost yv = runs_view(y@);
    let mut i: usize = 0;
    proof {
        assert(xv.skip(0) =~= xv);
        assert(yv.skip(0) =~= yv);
    }
    while i < x.len() && i < y.len()
        invariant
            i <= x.len(),
            i <= y.len(),
            xv == runs_view(x@),
            yv == runs_view(y@),
            well_formed_runs(xv),
            well_formed_runs(yv),
            segments_cmp(xv, yv) == segments_cmp(xv.skip(i as int), yv.skip(i as int)),
        decreases x.len() - i,
    {
        let a = &x[i];
        let b = &y[i];
        proof {
            assert(xv[i as int] == a@);
            assert(yv[i as int] == b@);
            assert(xv.skip(i as int)[0] == a@);
            assert(yv.skip(i as int)[0] == b@);
            assert(a@.len() > 0 && uniform(a@));
            assert(b@.len() > 0 && uniform(b@));
        }
        let da = '0' <= a[0] && a[0] <= '9';
        let db = '0' <= b[0] && b[0] <= '9';
        let o = if da && db {
            proof {
                assert(all_digits(a@));
                assert(all_digits(b@));
            }
            compare_numbers(a, b)
        } else if !da && !db {
            compare_text(a, b)
        } else if da {
            if '0' > b[0] {
                Ordering::Greater
            } else {
                Ordering::Less
            }
        } else {
            if '0' > a[0] {
                Ordering::Less
            } else {
                Ordering::Greater
            }
        };
        match o {
            Ordering::Equal => {},
            _ => {
                return o;
            },
        }
        proof {
            assert(xv.skip(i as int).drop_first() =~= xv.skip(i + 1));
            assert(yv.skip(i as int).drop_first() =~= yv.skip(i + 1));
        }
        i += 1;
    }
    if x.len() < y.len() {
        Ordering::Less
    } else if x.len() > y.len() {
        Ordering::Greater
    } else {
        Ordering::Equal
    }
}

/// Compares two hostnames: naturally, run by run, and lexicographically
/// where the natural comparison finds them equal.
pub fn compare_hostnames(a: &String, b: &String) -> (r: Ordering)
    ensures
        r == hostname_cmp(a@, b@),
{
    let ca = char_vec(a);
    let cb = char_vec(b);
    let sa = split_segments(&ca);
    let sb = split_segments(&cb);
    proof {
        reveal(hostname_cmp);
    }
    match compare_runs(&sa, &sb) {
        Ordering::Equal => compare_text(&ca, &cb),
        o => o,
    }
}

proof fn lemma_lex_cmp_flip(a: Seq<char>, b: Seq<char>)
    ensures
        lex_cmp(b, a) == flip(lex_cmp(a, b)),
    decreases a.len(),
{
    if a.len() > 0 && b.len() > 0 && a[0] == b[0] {
        lemma_lex_cmp_flip(a.drop_first(), b.drop_first());
    }
}

proof fn lemma_segments_cmp_flip(x: Seq<Seq<char>>, y: Seq<Seq<char>>)
    ensures
        segments_cmp(y, x) == flip(segments_cmp(x, y)),
    decreases x.len(),
{
    if x.len() > 0 && y.len() > 0 {
        lemma_lex_cmp_flip(x[0], y[0]);
        lemma_segments_cmp_flip(x.drop_first(), y.drop_first());
    }
}

/// Swapping the two hostnames reverses their order.
pub proof fn lemma_hostname_cmp_flip(a: Seq<char>, b: Seq<char>)
    ensures
        hostname_cmp(b, a) == flip(hostname_cmp(a, b)),
{
    reveal(hostname_cmp);
    lemma_segments_cmp_flip(segments(a), segments(b));
    lemma_lex_cmp_flip(a, b);
}

/// What `cmp(a, c)` must be, given `cmp(a, b)` and `cmp(b, c)`, for a
/// transitive order: equal links pass the other result on, and two equal
/// results carry over.
pub open spec fn chains(o: Ordering, p: Ordering, q: Ordering) -> bool {
    &&& o == Ordering::Equal ==> q == p
    &&& p == Ordering::Equal ==> q == o
    &&& o == p ==> q == o
}

proof fn lemma_lex_cmp_chain(a: Seq<char>, b: Seq<char>, c: Seq<char>)
    ensures
        chains(lex_cmp(a, b), lex_cmp(b, c), lex_cmp(a, c)),
    decreases a.len(),
{
    if a.len() > 0 && b.len() > 0 && c.len() > 0 && a[0] == b[0] && b[0] == c[0] {
        lemma_lex_cmp_chain(a.drop_first(), b.drop_first(), c.drop_first());
    }
}

/// Only identical texts compare equal.
proof fn lemma_lex_cmp_equal(a: Seq<char>, b: Seq<char>)
    ensures
        lex_cmp(a, b) == Ordering::Equal ==> a == b,
    decreases a.len(),
{
    if a.len() > 0 && b.len() > 0 && a[0] == b[0] {
        lemma_lex_cmp_equal(a.drop_first(), b.drop_first());
        if lex_cmp(a, b) == Ordering::Equal {
            assert(a =~= seq![a[0]] + a.drop_first());
            assert(b =~= seq![b[0]] + b.drop_first());
        }
    } else if a.len() == 0 && b.len() == 0 {
        assert(a =~= b);
    }
}

proof fn lemma_segment_cmp_chain(a: Seq<char>, b: Seq<char>, c: Seq<char>)
    requires
        a.len() > 0,
        b.len() > 0,
        c.len() > 0,
    ensures
        chains(segment_cmp(a, b), segment_cmp(b, c), segment_cmp(a, c)),
{
    lemma_lex_cmp_chain(a, b, c);
    lemma_lex_cmp_equal(a, b);
    lemma_lex_cmp_equal(b, c);
}

/// Every run is non-empty.
pub open spec fn runs_nonempty(x: Seq<Seq<char>>) -> bool {
    forall|k: int| 0 <= k < x.len() ==> (#[trigger] x[k]).len() > 0
}

proof fn lemma_segments_nonempty(s: Seq<char>)
    ensures
        runs_nonempty(segments(s)),
    decreases s.len(),
{
    if s.len() > 0 {
        lemma_segments_nonempty(s.drop_last());
        let p = segments(s.drop_last());
        let r = segments(s);
        let c = s.last();
        if p.len() > 0 && is_digit(p.last().last()) == is_digit(c) {
            assert forall|k: int| 0 <= k < r.len() implies (#[trigger] r[k]).len() > 0 by {
                if k < p.len() - 1 {
                    assert(r[k] == p[k]);
                }
            }
        } else {
            assert forall|k: int| 0 <= k < r.len() implies (#[trigger] r[k]).len() > 0 by {
                if k < p.len() {
                    assert(r[k] == p[k]);
                }
            }
        }
    }
}

proof fn lemma_segments_cmp_chain(x: Seq<Seq<char>>, y: Seq<Seq<char>>, z: Seq<Seq<char>>)
    requires
        runs_nonempty(x),
        runs_nonempty(y),
        runs_nonempty(z),
    ensures
        chains(segments_cmp(x, y), segments_cmp(y, z), segments_cmp(x, z)),
    decreases x.len(),
{
    if x.len() > 0 && y.len() > 0 && z.len() > 0 {
        assert(x[0].len() > 0 && y[0].len() > 0 && z[0].len() > 0);
        lemma_segment_cmp_chain(x[0], y[0], z[0]);
        let (xs, ys, zs) = (x.drop_first(), y.drop_first(), z.drop_first());
        assert(runs_nonempty(xs)) by {
            assert forall|k: int| 0 <= k < xs.len() implies (#[trigger] xs[k]).len() > 0 by {
                assert(xs[k] == x[k + 1]);
            }
        }
        assert(runs_nonempty(ys)) by {
            assert forall|k: int| 0 <= k < ys.len() implies (#[trigger] ys[k]).len() > 0 by {
                assert(ys[k] == y[k + 1]);
            }
        }
        assert(runs_nonempty(zs)) by {
            assert forall|k: int| 0 <= k < zs.len() implies (#[trigger] zs[k]).len() > 0 by {
                assert(zs[k] == z[k + 1]);
            }
        }
        lemma_segments_cmp_chain(xs, ys, zs);
    }
}

/// The hostname order is transitive: it is a total order.
pub proof fn lemma_hostname_cmp_chain(a: Seq<char>, b: Seq<char>, c: Seq<char>)
    ensures
        chains(hostname_cmp(a, b), hostname_cmp(b, c), hostname_cmp(a, c)),
{
    reveal(hostname_cmp);
    lemma_segments_nonempty(a);
    lemma_segments_nonempty(b);
    lemma_segments_nonempty(c);
    lemma_segments_cmp_chain(segments(a), segments(b), segments(c));
    lemma_lex_cmp_chain(a, b, c);
}

/// Only identical hostnames compare equal.
pub proof fn lemma_hostname_cmp_equal(a: Seq<char>, b: Seq<char>)
    ensures
        hostname_cmp(a, b) == Ordering::Equal ==> a == b,
{
    reveal(hostname_cmp);
    lemma_lex_cmp_equal(a, b);
}

/// Whether hostname `a` comes after hostname `b`.
pub fn comes_after(a: &String, b: &String) -> (r: bool)
    ensures
        r == (hostname_cmp(a@, b@) == Ordering::Greater),
{
    match compare_hostnames(a, b) {
        Ordering::Greater => true,
        _ => false,
    }
}

/// A record that carries a hostname.
pub trait Hostnamed {
    /// The hostname, as text.
    spec fn host(&self) -> Seq<char>;

    /// The hostname.
    fn hostname(&self) -> (r: &String)
        ensures
            r@ == self.host(),
    ;
}

/// No hostname in `s` comes after a later one.
pub open spec fn sorted_by_hostname<T: Hostnamed>(s: Seq<T>) -> bool {
    forall|i: int, j: int|
        0 <= i < j < s.len() ==> #[trigger] hostname_cmp(s[i].host(), s[j].host())
            != Ordering::Greater
}

/// No hostname in `s` comes after the one that follows it.
pub open spec fn neighbours_sorted<T: Hostnamed>(s: Seq<T>) -> bool {
    forall|i: int|
        0 <= i < s.len() - 1 ==> #[trigger] hostname_cmp(s[i].host(), s[i + 1].host())
            != Ordering::Greater
}

/// In order up to the last item, then every item up to `i` is in order
/// with the last.
proof fn lemma_in_order_with_last<T: Hostnamed>(s: Seq<T>, i: int)
    requires
        neighbours_sorted(s),
        0 <= i < s.len(),
    ensures
        hostname_cmp(s[i].host(), s.last().host()) != Ordering::Greater,
    decreases s.len() - i,
{
    if i < s.len() - 1 {
        assert(hostname_cmp(s[i].host(), s[i + 1].host()) != Ordering::Greater);
        lemma_in_order_with_last(s, i + 1);
        lemma_hostname_cmp_chain(s[i].host(), s[i + 1].host(), s.last().host());
    } else {
        lemma_hostname_cmp_flip(s[i].host(), s[i].host());
    }
}

/// Neighbours in order means every pair in order.
proof fn lemma_neighbours_sorted<T: Hostnamed>(s: Seq<T>)
    requires
        neighbours_sorted(s),
    ensures
        sorted_by_hostname(s),
    decreases s.len(),
{
    if s.len() > 0 {
        let p = s.drop_last();
        assert(neighbours_sorted(p)) by {
            assert forall|i: int| 0 <= i < p.len() - 1 implies #[trigger] hostname_cmp(
                p[i].host(),
                p[i + 1].host(),
            ) != Ordering::Greater by {
                assert(hostname_cmp(s[i].host(), s[i + 1].host()) != Ordering::Greater);
            }
        }
        lemma_neighbours_sorted(p);
        assert forall|i: int, j: int| 0 <= i < j < s.len() implies #[trigger] hostname_cmp(
            s[i].host(),
            s[j].host(),
        ) != Ordering::Greater by {
            if j < s.len() - 1 {
                assert(hostname_cmp(p[i].host(), p[j].host()) != Ordering::Greater);
            } else {
                lemma_in_order_with_last(s, i);
            }
        }
    }
}

/// Taking out the item at `k` and putting it back anywhere keeps the items.
proof fn lemma_move_keeps_items<T>(s: Seq<T>, k: int, j: int)
    requires
        0 <= k < s.len(),
        0 <= j <= k,
    ensures
        s.remove(k).insert(j, s[k]).to_multiset() == s.to_multiset(),
{
    broadcast use vstd::seq_lib::group_to_multiset_ensures, vstd::seq_lib::to_multiset_insert;

    assert(s.to_multiset().count(s[k]) > 0);
    assert(s.remove(k).to_multiset() == s.to_multiset().remove(s[k]));
    assert(s.remove(k).insert(j, s[k]).to_multiset() =~= s.to_multiset());
}

/// Inserting `x` after the hostnames that do not come after it and before
/// those that do keeps a sorted prefix sorted.
proof fn lemma_insert_keeps_sorted<T: Hostnamed>(rest: Seq<T>, k: int, j: int, x: T)
    requires
        0 <= j <= k <= rest.len(),
        neighbours_sorted(rest.take(k)),
        forall|t: int|
            j <= t < k ==> hostname_cmp(#[trigger] rest[t].host(), x.host()) == Ordering::Greater,
        j > 0 ==> hostname_cmp(rest[j - 1].host(), x.host()) != Ordering::Greater,
    ensures
        neighbours_sorted(rest.insert(j, x).take(k + 1)),
{
    let nv = rest.insert(j, x);
    rest.insert_ensures(j, x);
    let p = rest.take(k);
    assert forall|t: int| 0 <= t < k implies #[trigger] hostname_cmp(
        nv.take(k + 1)[t].host(),
        nv.take(k + 1)[t + 1].host(),
    ) != Ordering::Greater by {
        assert(nv.take(k + 1)[t] == nv[t]);
        assert(nv.take(k + 1)[t + 1] == nv[t + 1]);
        if t + 1 < j {
            assert(nv[t] == p[t] && nv[t + 1] == p[t + 1]);
            assert(hostname_cmp(p[t].host(), p[t + 1].host()) != Ordering::Greater);
        } else if t + 1 == j {
            assert(nv[t] == rest[t] && nv[t + 1] == x);
        } else if t == j {
            assert(nv[t] == x && nv[t + 1] == rest[t]);
            lemma_hostname_cmp_flip(rest[t].host(), x.host());
        } else {
            assert(nv[t] == p[t - 1] && nv[t + 1] == p[t]);
            assert(hostname_cmp(p[t - 1].host(), p[(t - 1) + 1].host()) != Ordering::Greater);
        }
    }
}

/// Sorts `v` by hostname in natural order. A list already in order is left
/// exactly as it was, so sorting twice changes nothing more.
pub fn sort_by_hostname<T: Hostnamed>(v: &mut Vec<T>)
    ensures
        final(v)@.to_multiset() == old(v)@.to_multiset(),
        sorted_by_hostname(final(v)@),
        sorted_by_hostname(old(v)@) ==> final(v)@ == old(v)@,
{
    let ghost orig = v@;
    proof {
        if sorted_by_hostname(orig) {
            assert forall|i: int| 0 <= i < orig.len() - 1 implies #[trigger] hostname_cmp(
                orig[i].host(),
                orig[i + 1].host(),
            ) != Ordering::Greater by {
                assert(hostname_cmp(orig[i].host(), orig[i + 1].host()) != Ordering::Greater);
            }
        }
    }
    let mut k: usize = 0;
    while k < v.len()
        invariant
            k <= v@.len(),
            v@.len() == orig.len(),
            v@.to_multiset() == orig.to_multiset(),
            neighbours_sorted(v@.take(k as int)),
            neighbours_sorted(orig) ==> v@ == orig,
        decreases v@.len() - k,
    {
        let ghost before = v@;
        let x = v.remove(k);
        let ghost rest = v@;
        proof {
            assert(rest.take(k as int) =~= before.take(k as int));
        }
        let mut j: usize = k;
        while j > 0 && comes_after(v[j - 1].hostname(), x.hostname())
            invariant
                j <= k,
                k <= rest.len(),
                k < orig.len(),
                v@ == rest,
                forall|t: int|
                    j <= t < k ==> hostname_cmp(#[trigger] rest[t].host(), x.host())
                        == Ordering::Greater,
                neighbours_sorted(orig) && before == orig && x == orig[k as int] && rest
                    == orig.remove(k as int) ==> j == k,
            decreases j,
        {
            proof {
                if neighbours_sorted(orig) && before == orig && x == orig[k as int] && rest
                    == orig.remove(k as int) && j == k {
                    orig.remove_ensures(k as int);
                    assert(rest[j - 1] == orig[k - 1]);
                    assert(hostname_cmp(orig[k - 1].host(), orig[(k - 1) + 1].host())
                        != Ordering::Greater);
                    assert(false);
                }
            }
            j -= 1;
        }
        proof {
            lemma_insert_keeps_sorted(rest, k as int, j as int, x);
            lemma_move_keeps_items(before, k as int, j as int);
        }
        v.insert(j, x);
        proof {
            if neighbours_sorted(orig) && before == orig {
                assert(v@ =~= orig);
            }
        }
        k += 1;
    }
    proof {
        assert(v@.take(v@.len() as int) =~= v@);
        lemma_neighbours_sorted(v@);
    }
}

} // verus!
