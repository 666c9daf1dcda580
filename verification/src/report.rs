//! The diagnostic reporter.
//!
//! Collects diagnostics in discovery order, drops later repetitions of an
//! identical kind-and-location pair, and exposes a read-only ordered
//! sequence together with a validity flag: a program is valid exactly when
//! no diagnostic was found.

use vstd::prelude::*;
use crate::program::Diagnostic;

verus! {

/// The order-preserving deduplication: of equal diagnostics the first
/// occurrence stays.
pub open spec fn dedup_spec(s: Seq<Diagnostic>) -> Seq<Diagnostic>
    decreases s.len(),
{
    if s.len() == 0 {
        Seq::empty()
    } else {
        let front = dedup_spec(s.drop_last());
        if front.contains(s.last()) {
            front
        } else {
            front.push(s.last())
        }
    }
}

/// Deduplication keeps exactly the diagnostics of its input.
pub proof fn lemma_dedup_membership(s: Seq<Diagnostic>, d: Diagnostic)
    ensures
        dedup_spec(s).contains(d) <==> s.contains(d),
    decreases s.len(),
{
    if s.len() > 0 {
        lemma_dedup_membership(s.drop_last(), d);
        let front = dedup_spec(s.drop_last());
        let out = dedup_spec(s);
        if s.contains(d) {
            let k = choose|k: int| 0 <= k < s.len() && s[k] == d;
            if k < s.len() - 1 {
                assert(s.drop_last()[k] == d);
                assert(s.drop_last().contains(d));
            }
            if front.contains(d) {
                let j = choose|j: int| 0 <= j < front.len() && front[j] == d;
                assert(out[j] == d);
            } else {
                assert(d == s.last());
                assert(out == front.push(s.last()));
                assert(out[front.len() as int] == d);
            }
            assert(out.contains(d));
        }
        if out.contains(d) {
            let k = choose|k: int| 0 <= k < out.len() && out[k] == d;
            if k < front.len() {
                assert(front[k] == d);
                assert(front.contains(d));
                assert(s.drop_last().contains(d));
                let j = choose|j: int| 0 <= j < s.drop_last().len() && s.drop_last()[j] == d;
                assert(s[j] == d);
            } else {
                assert(d == s.last());
                assert(s[s.len() - 1] == d);
            }
            assert(s.contains(d));
        }
    }
}

/// Deduplication leaves no two equal diagnostics behind.
pub proof fn lemma_dedup_distinct(s: Seq<Diagnostic>)
    ensures
        forall|j: int, k: int|
            0 <= j < k < dedup_spec(s).len() ==> dedup_spec(s)[j] != dedup_spec(s)[k],
    decreases s.len(),
{
    if s.len() > 0 {
        lemma_dedup_distinct(s.drop_last());
        let front = dedup_spec(s.drop_last());
        let out = dedup_spec(s);
        if !front.contains(s.last()) {
            assert forall|j: int, k: int| 0 <= j < k < out.len() implies out[j] != out[k] by {
                if k == out.len() - 1 {
                    assert(out[k] == s.last());
                    assert(front[j] == out[j]);
                    if out[j] == s.last() {
                        assert(front.contains(s.last()));
                    }
                }
            }
        }
    }
}

/// A deduplicated sequence is empty exactly when its input was.
pub proof fn lemma_dedup_empty(s: Seq<Diagnostic>)
    ensures
        dedup_spec(s).len() == 0 <==> s.len() == 0,
{
    if s.len() > 0 {
        lemma_dedup_membership(s, s.last());
        assert(s[s.len() - 1] == s.last());
        assert(s.contains(s.last()));
        assert(dedup_spec(s).contains(s.last()));
    }
}

/// The ordered, deduplicated diagnostics of one checked program, plus its
/// validity verdict. Owned by the caller; immutable once produced.
#[derive(Clone, Debug)]
pub struct Report {
    diags: Vec<Diagnostic>,
}

impl View for Report {
    type V = Seq<Diagnostic>;

    closed spec fn view(&self) -> Seq<Diagnostic> {
        self.diags@
    }
}

/// Whether `v` holds a diagnostic equal to `d`.
fn holds_diag(v: &Vec<Diagnostic>, d: Diagnostic) -> (r: bool)
    ensures
        r == v@.contains(d),
{
    let n = v.len();
    let mut j: usize = 0;
    while j < n
        invariant
            n == v@.len(),
            0 <= j <= n,
            forall|k: int| 0 <= k < j ==> v@[k] != d,
        decreases n - j,
    {
        if v[j] == d {
            return true;
        }
        j = j + 1;
    }
    false
}

impl Report {
    /// Aggregates raw diagnostics in discovery order, keeping the first of
    /// each identical kind-and-location pair.
    pub fn from_raw(raw: Vec<Diagnostic>) -> (r: Report)
        ensures
            r@ == dedup_spec(raw@),
    {
        let n = raw.len();
        let mut out: Vec<Diagnostic> = Vec::new();
        let mut j: usize = 0;
        while j < n
            invariant
                n == raw@.len(),
                0 <= j <= n,
                out@ == dedup_spec(raw@.take(j as int)),
            decreases n - j,
        {
            let d = raw[j];
            proof {
                assert(raw@.take(j as int + 1).drop_last() =~= raw@.take(j as int));
                assert(raw@.take(j as int + 1).last() == raw@[j as int]);
            }
            if !holds_diag(&out, d) {
                out.push(d);
            }
            j = j + 1;
        }
        proof {
            assert(raw@.take(n as int) =~= raw@);
        }
        Report { diags: out }
    }

    /// The ordered diagnostics, one per discovered violation.
    pub fn diagnostics(&self) -> (r: &Vec<Diagnostic>)
        ensures
            r@ == self@,
    {
        &self.diags
    }

    /// Whether the checked program is valid: true exactly when no
    /// diagnostic was found.
    pub fn is_valid(&self) -> (r: bool)
        ensures
            r == (self@.len() == 0),
    {
        self.diags.len() == 0
    }
}

} // verus!
