use vstd::prelude::*;
use std::path::Path;

verus! {

/// One action of an archive rebuild, by position in the original entry list
/// (`at`) or in the candidate list (`source`).
#[derive(Clone, Copy, Debug, PartialEq, Eq, Structural)]
pub enum Step {
    /// Keep the original entry at `at` unchanged.
    Copy { at: usize },
    /// Keep the name and position of the original entry at `at`, with the
    /// content of candidate `source`.
    Replace { at: usize, source: usize },
    /// Append candidate `source` as a new entry.
    Add { source: usize },
    /// Candidate `source` was not found; nothing is written for it.
    Missing { source: usize },
}

/// Index of the first occurrence of `x` in `s`, or `s.len()` if there is none.
pub open spec fn first_index(s: Seq<Seq<char>>, x: Seq<char>) -> int
    decreases s.len(),
{
    if s.len() == 0 {
        0
    } else if s.last() == x && !s.drop_last().contains(x) {
        s.len() - 1
    } else if s.drop_last().contains(x) {
        first_index(s.drop_last(), x)
    } else {
        s.len() as int
    }
}

/// The step taken for the original entry at `i` during an update.
pub open spec fn keep_step(orig: Seq<Seq<char>>, cands: Seq<Seq<char>>, i: int) -> Step {
    if cands.contains(orig[i]) {
        Step::Replace { at: i as usize, source: first_index(cands, orig[i]) as usize }
    } else {
        Step::Copy { at: i as usize }
    }
}

/// Steps for the first `n` original entries, in their order.
pub open spec fn keep_steps(orig: Seq<Seq<char>>, cands: Seq<Seq<char>>, n: int) -> Seq<Step>
    decreases n,
{
    if n <= 0 {
        Seq::empty()
    } else {
        keep_steps(orig, cands, n - 1).push(keep_step(orig, cands, n - 1))
    }
}

/// Whether candidate `j` brings a new name: one that no original entry has
/// and that no earlier candidate carries.
pub open spec fn brings_new(orig: Seq<Seq<char>>, cands: Seq<Seq<char>>, j: int) -> bool {
    !orig.contains(cands[j]) && first_index(cands, cands[j]) == j
}

/// Steps for the first `n` candidates that bring a new name, in order: the
/// ones that were found are appended, the others reported missing.
pub open spec fn add_steps(orig: Seq<Seq<char>>, cands: Seq<Seq<char>>, present: Seq<bool>, n: int) -> Seq<Step>
    decreases n,
{
    if n <= 0 {
        Seq::empty()
    } else if !brings_new(orig, cands, n - 1) {
        add_steps(orig, cands, present, n - 1)
    } else if present[n - 1] {
        add_steps(orig, cands, present, n - 1).push(Step::Add { source: (n - 1) as usize })
    } else {
        add_steps(orig, cands, present, n - 1).push(Step::Missing { source: (n - 1) as usize })
    }
}

/// The full update plan: every original entry in order, copied or replaced,
/// then every candidate that brings a new name, in candidate order.
pub open spec fn update_plan(orig: Seq<Seq<char>>, cands: Seq<Seq<char>>, present: Seq<bool>) -> Seq<Step> {
    keep_steps(orig, cands, orig.len() as int) + add_steps(orig, cands, present, cands.len() as int)
}

/// The create plan for the first `n` candidates: present ones are added,
/// absent ones reported missing.
pub open spec fn create_steps(present: Seq<bool>, n: int) -> Seq<Step>
    decreases n,
{
    if n <= 0 {
        Seq::empty()
    } else if present[n - 1] {
        create_steps(present, n - 1).push(Step::Add { source: (n - 1) as usize })
    } else {
        create_steps(present, n - 1).push(Step::Missing { source: (n - 1) as usize })
    }
}

/// The entry name a step writes, if it writes one.
pub open spec fn step_name(orig: Seq<Seq<char>>, cands: Seq<Seq<char>>, s: Step) -> Seq<Seq<char>> {
    match s {
        Step::Copy { at } => seq![orig[at as int]],
        Step::Replace { at, source } => seq![orig[at as int]],
        Step::Add { source } => seq![cands[source as int]],
        Step::Missing { source } => Seq::empty(),
    }
}

/// The entry names that a list of steps writes, in order.
pub open spec fn written_names(orig: Seq<Seq<char>>, cands: Seq<Seq<char>>, steps: Seq<Step>) -> Seq<Seq<char>>
    decreases steps.len(),
{
    if steps.len() == 0 {
        Seq::empty()
    } else {
        written_names(orig, cands, steps.drop_last()) + step_name(orig, cands, steps.last())
    }
}

/// The new names that the first `n` candidates bring and that were found, in order.
pub open spec fn new_names(orig: Seq<Seq<char>>, cands: Seq<Seq<char>>, present: Seq<bool>, n: int) -> Seq<Seq<char>>
    decreases n,
{
    if n <= 0 {
        Seq::empty()
    } else if brings_new(orig, cands, n - 1) && present[n - 1] {
        new_names(orig, cands, present, n - 1).push(cands[n - 1])
    } else {
        new_names(orig, cands, present, n - 1)
    }
}

/// The names of an updated archive: the original names, then the new ones.
pub open spec fn merged_names(orig: Seq<Seq<char>>, cands: Seq<Seq<char>>, present: Seq<bool>) -> Seq<Seq<char>> {
    orig + new_names(orig, cands, present, cands.len() as int)
}

/// The first `n` candidate names that are present, in order.
pub open spec fn present_names(cands: Seq<Seq<char>>, present: Seq<bool>, n: int) -> Seq<Seq<char>>
    decreases n,
{
    if n <= 0 {
        Seq::empty()
    } else if present[n - 1] {
        present_names(cands, present, n - 1).push(cands[n - 1])
    } else {
        present_names(cands, present, n - 1)
    }
}

pub open spec fn names_view(v: Seq<String>) -> Seq<Seq<char>> {
    v.map_values(|s: String| s@)
}

pub proof fn lemma_first_index(s: Seq<Seq<char>>, x: Seq<char>)
    ensures
        s.contains(x) ==> (0 <= first_index(s, x) < s.len() && s[first_index(s, x)] == x
            && forall|j: int| 0 <= j < first_index(s, x) ==> s[j] != x),
        !s.contains(x) ==> first_index(s, x) == s.len(),
    decreases s.len(),
{
    if s.len() > 0 {
        lemma_first_index(s.drop_last(), x);
        if s.drop_last().contains(x) {
            let k = first_index(s.drop_last(), x);
            assert(s[k] == s.drop_last()[k]);
            assert forall|j: int| 0 <= j < k implies s[j] != x by {
                assert(s[j] == s.drop_last()[j]);
            }
        } else if s.last() == x {
            assert forall|j: int| 0 <= j < s.len() - 1 implies s[j] != x by {
                assert(s[j] == s.drop_last()[j]);
            }
        } else {
            if s.contains(x) {
                let j = choose|j: int| 0 <= j < s.len() && s[j] == x;
                assert(j != s.len() - 1);
                assert(s.drop_last()[j] == x);
            }
        }
    }
}

/// Position of the first candidate named `name`, or `cands.len()` if none.
fn find_first(cands: &Vec<String>, name: &String) -> (r: usize)
    ensures
        r as int == first_index(names_view(cands@), name@),
{
    let ghost cv = names_view(cands@);
    proof { lemma_first_index(cv, name@); }
    let mut i: usize = 0;
    while i < cands.len()
        invariant
            0 <= i <= cands.len(),
            cv == names_view(cands@),
            forall|j: int| 0 <= j < i ==> cv[j] != name@,
            cv.contains(name@) ==> (0 <= first_index(cv, name@) < cv.len() && cv[first_index(cv, name@)] == name@
                && forall|j: int| 0 <= j < first_index(cv, name@) ==> cv[j] != name@),
            !cv.contains(name@) ==> first_index(cv, name@) == cv.len(),
        decreases cands.len() - i,
    {
        assert(cv[i as int] == cands@[i as int]@);
        if cands[i].eq(name) {
            assert(cv.contains(name@));
            return i;
        }
        i = i + 1;
    }
    proof {
        assert(!cv.contains(name@));
    }
    i
}


pub proof fn lemma_written_push(orig: Seq<Seq<char>>, cands: Seq<Seq<char>>, steps: Seq<Step>, s: Step)
    ensures
        written_names(orig, cands, steps.push(s)) == written_names(orig, cands, steps) + step_name(orig, cands, s),
{
    assert(steps.push(s).drop_last() =~= steps);
}

pub proof fn lemma_written_concat(orig: Seq<Seq<char>>, cands: Seq<Seq<char>>, a: Seq<Step>, b: Seq<Step>)
    ensures
        written_names(orig, cands, a + b) == written_names(orig, cands, a) + written_names(orig, cands, b),
    decreases b.len(),
{
    if b.len() == 0 {
        assert(a + b =~= a);
        assert(written_names(orig, cands, a) + Seq::<Seq<char>>::empty() =~= written_names(orig, cands, a));
    } else {
        lemma_written_concat(orig, cands, a, b.drop_last());
        assert((a + b).drop_last() =~= a + b.drop_last());
        assert((a + b).last() == b.last());
        assert(written_names(orig, cands, a) + written_names(orig, cands, b.drop_last()) + step_name(orig, cands, b.last())
            =~= written_names(orig, cands, a) + (written_names(orig, cands, b.drop_last()) + step_name(orig, cands, b.last())));
    }
}

proof fn lemma_keep_names(orig: Seq<Seq<char>>, cands: Seq<Seq<char>>, n: int)
    requires
        0 <= n <= orig.len(),
        orig.len() <= usize::MAX,
    ensures
        written_names(orig, cands, keep_steps(orig, cands, n)) =~= orig.take(n),
    decreases n,
{
    if n > 0 {
        lemma_keep_names(orig, cands, n - 1);
        lemma_written_push(orig, cands, keep_steps(orig, cands, n - 1), keep_step(orig, cands, n - 1));
        assert(orig.take(n) =~= orig.take(n - 1).push(orig[n - 1]));
    }
}

proof fn lemma_add_names(orig: Seq<Seq<char>>, cands: Seq<Seq<char>>, present: Seq<bool>, n: int)
    requires
        0 <= n <= cands.len(),
        cands.len() <= usize::MAX,
    ensures
        written_names(orig, cands, add_steps(orig, cands, present, n)) =~= new_names(orig, cands, present, n),
    decreases n,
{
    if n > 0 {
        lemma_add_names(orig, cands, present, n - 1);
        let prev = add_steps(orig, cands, present, n - 1);
        if brings_new(orig, cands, n - 1) {
            if present[n - 1] {
                lemma_written_push(orig, cands, prev, Step::Add { source: (n - 1) as usize });
            } else {
                lemma_written_push(orig, cands, prev, Step::Missing { source: (n - 1) as usize });
            }
        }
    }
}

proof fn lemma_create_names(cands: Seq<Seq<char>>, present: Seq<bool>, n: int)
    requires
        0 <= n <= cands.len(),
        cands.len() == present.len(),
        cands.len() <= usize::MAX,
    ensures
        written_names(cands, cands, create_steps(present, n)) =~= present_names(cands, present, n),
    decreases n,
{
    if n > 0 {
        lemma_create_names(cands, present, n - 1);
        if present[n - 1] {
            lemma_written_push(cands, cands, create_steps(present, n - 1), Step::Add { source: (n - 1) as usize });
        } else {
            lemma_written_push(cands, cands, create_steps(present, n - 1), Step::Missing { source: (n - 1) as usize });
        }
    }
}

/// An update writes exactly the original names in their order, followed by
/// the new names that the candidates found bring, in candidate order.
pub proof fn lemma_update_names(orig: Seq<Seq<char>>, cands: Seq<Seq<char>>, present: Seq<bool>)
    requires
        orig.len() <= usize::MAX,
        cands.len() <= usize::MAX,
    ensures
        written_names(orig, cands, update_plan(orig, cands, present)) == merged_names(orig, cands, present),
{
    lemma_keep_names(orig, cands, orig.len() as int);
    lemma_add_names(orig, cands, present, cands.len() as int);
    lemma_written_concat(orig, cands, keep_steps(orig, cands, orig.len() as int), add_steps(orig, cands, present, cands.len() as int));
    assert(orig.take(orig.len() as int) =~= orig);
}

/// A creation writes exactly the names of the candidates that are present,
/// in candidate order.
pub proof fn lemma_create_plan_names(cands: Seq<Seq<char>>, present: Seq<bool>)
    requires
        cands.len() == present.len(),
        cands.len() <= usize::MAX,
    ensures
        written_names(cands, cands, create_steps(present, cands.len() as int))
            == present_names(cands, present, cands.len() as int),
{
    lemma_create_names(cands, present, cands.len() as int);
}

proof fn lemma_new_names_has(orig: Seq<Seq<char>>, cands: Seq<Seq<char>>, present: Seq<bool>, n: int, j: int)
    requires
        0 <= j < n <= cands.len(),
        brings_new(orig, cands, j),
        present[j],
    ensures
        new_names(orig, cands, present, n).contains(cands[j]),
    decreases n,
{
    let prev = new_names(orig, cands, present, n - 1);
    let now = new_names(orig, cands, present, n);
    if j < n - 1 {
        lemma_new_names_has(orig, cands, present, n - 1, j);
        let k = choose|k: int| 0 <= k < prev.len() && #[trigger] prev[k] == cands[j];
        if brings_new(orig, cands, n - 1) && present[n - 1] {
            assert(now[k] == cands[j]);
        }
    } else {
        assert(now[prev.len() as int] == cands[j]);
    }
}

/// Every new name is carried by a candidate that brings it and was found,
/// and no new name occurs twice.
pub proof fn lemma_new_names_from(orig: Seq<Seq<char>>, cands: Seq<Seq<char>>, present: Seq<bool>, n: int)
    requires
        0 <= n <= cands.len(),
    ensures
        new_names(orig, cands, present, n).len() <= n,
        forall|t: int| 0 <= t < new_names(orig, cands, present, n).len() ==> exists|j: int| 0 <= j < n
            && brings_new(orig, cands, j) && present[j] && #[trigger] new_names(orig, cands, present, n)[t] == cands[j],
        new_names(orig, cands, present, n).no_duplicates(),
    decreases n,
{
    if n > 0 {
        lemma_new_names_from(orig, cands, present, n - 1);
        let prev = new_names(orig, cands, present, n - 1);
        let now = new_names(orig, cands, present, n);
        if brings_new(orig, cands, n - 1) && present[n - 1] {
            assert forall|t: int| 0 <= t < now.len() implies exists|j: int| 0 <= j < n
                && brings_new(orig, cands, j) && present[j] && #[trigger] now[t] == cands[j] by {
                if t < prev.len() {
                    assert(now[t] == prev[t]);
                    let j = choose|j: int| 0 <= j < n - 1 && brings_new(orig, cands, j) && present[j] && #[trigger] prev[t] == cands[j];
                    assert(now[t] == cands[j]);
                } else {
                    assert(now[t] == cands[n - 1]);
                }
            }
            assert forall|a: int, b: int| 0 <= a < now.len() && 0 <= b < now.len() && a != b implies now[a] != now[b] by {
                if a < prev.len() && b < prev.len() {
                    assert(now[a] == prev[a] && now[b] == prev[b]);
                } else if a < prev.len() || b < prev.len() {
                    let t = if a < prev.len() { a } else { b };
                    assert(now[t] == prev[t]);
                    let j = choose|j: int| 0 <= j < n - 1 && brings_new(orig, cands, j) && present[j] && #[trigger] prev[t] == cands[j];
                    if cands[j] == cands[n - 1] {
                        lemma_first_index(cands, cands[j]);
                        assert(cands.contains(cands[j]));
                    }
                }
            }
        }
    }
}

proof fn lemma_new_names_none(orig: Seq<Seq<char>>, cands: Seq<Seq<char>>, present: Seq<bool>, n: int)
    requires
        0 <= n <= cands.len(),
        forall|j: int| 0 <= j < n ==> (orig.contains(#[trigger] cands[j]) || !brings_new(orig, cands, j) || !present[j]),
    ensures
        new_names(orig, cands, present, n) == Seq::<Seq<char>>::empty(),
    decreases n,
{
    if n > 0 {
        lemma_new_names_none(orig, cands, present, n - 1);
    }
}

/// Updating a second time with the same candidates leaves the entry names
/// and their order as the first update left them.
pub proof fn lemma_update_idempotent(orig: Seq<Seq<char>>, cands: Seq<Seq<char>>, present: Seq<bool>)
    ensures
        merged_names(merged_names(orig, cands, present), cands, present) == merged_names(orig, cands, present),
{
    let m = merged_names(orig, cands, present);
    let nn = new_names(orig, cands, present, cands.len() as int);
    assert forall|j: int| 0 <= j < cands.len() implies (m.contains(#[trigger] cands[j]) || !brings_new(m, cands, j) || !present[j]) by {
        if orig.contains(cands[j]) {
            let k = choose|k: int| 0 <= k < orig.len() && orig[k] == cands[j];
            assert(m[k] == cands[j]);
        } else if brings_new(orig, cands, j) && present[j] {
            lemma_new_names_has(orig, cands, present, cands.len() as int, j);
            let k = choose|k: int| 0 <= k < nn.len() && nn[k] == cands[j];
            assert(m[orig.len() + k] == cands[j]);
        }
    }
    lemma_new_names_none(m, cands, present, cands.len() as int);
    assert(m + Seq::<Seq<char>>::empty() =~= m);
}

/// The create plan holds one step per candidate, at the candidate's position.
pub proof fn lemma_create_steps_at(present: Seq<bool>, n: int)
    requires
        0 <= n <= present.len(),
        present.len() <= usize::MAX,
    ensures
        create_steps(present, n).len() == n,
        forall|k: int| 0 <= k < n ==> #[trigger] create_steps(present, n)[k] == (if present[k] {
            Step::Add { source: k as usize }
        } else {
            Step::Missing { source: k as usize }
        }),
    decreases n,
{
    if n > 0 {
        lemma_create_steps_at(present, n - 1);
        assert forall|k: int| 0 <= k < n implies #[trigger] create_steps(present, n)[k] == (if present[k] {
            Step::Add { source: k as usize }
        } else {
            Step::Missing { source: k as usize }
        }) by {
            if k < n - 1 {
                assert(create_steps(present, n)[k] == create_steps(present, n - 1)[k]);
            }
        }
    }
}

/// The kept part of an update plan holds one step per original entry, at
/// the entry's position.
pub proof fn lemma_keep_steps_at(orig: Seq<Seq<char>>, cands: Seq<Seq<char>>, n: int)
    requires
        0 <= n,
    ensures
        keep_steps(orig, cands, n).len() == n,
        forall|k: int| 0 <= k < n ==> #[trigger] keep_steps(orig, cands, n)[k] == keep_step(orig, cands, k),
    decreases n,
{
    if n > 0 {
        lemma_keep_steps_at(orig, cands, n - 1);
        assert forall|k: int| 0 <= k < n implies #[trigger] keep_steps(orig, cands, n)[k] == keep_step(orig, cands, k) by {
            if k < n - 1 {
                assert(keep_steps(orig, cands, n)[k] == keep_steps(orig, cands, n - 1)[k]);
            }
        }
    }
}

/// The appended part of an update plan adds only candidates that bring a new
/// name and were found, and reports missing only those that were not.
pub proof fn lemma_add_steps_shape(orig: Seq<Seq<char>>, cands: Seq<Seq<char>>, present: Seq<bool>, n: int)
    requires
        0 <= n <= cands.len(),
        cands.len() <= usize::MAX,
    ensures
        forall|t: int| 0 <= t < add_steps(orig, cands, present, n).len() ==> match #[trigger] add_steps(orig, cands, present, n)[t] {
            Step::Add { source } => source < n && present[source as int] && brings_new(orig, cands, source as int),
            Step::Missing { source } => source < n && !present[source as int],
            _ => false,
        },
    decreases n,
{
    if n > 0 {
        lemma_add_steps_shape(orig, cands, present, n - 1);
        let prev = add_steps(orig, cands, present, n - 1);
        let now = add_steps(orig, cands, present, n);
        assert forall|t: int| 0 <= t < now.len() implies match #[trigger] now[t] {
            Step::Add { source } => source < n && present[source as int] && brings_new(orig, cands, source as int),
            Step::Missing { source } => source < n && !present[source as int],
            _ => false,
        } by {
            if t < prev.len() {
                assert(now[t] == prev[t]);
            }
        }
    }
}

/// Plans an update of an archive whose entries are named `orig` with the
/// candidates named `cands`, of which those with `present[i]` were found.
pub fn plan_update(orig: &Vec<String>, cands: &Vec<String>, present: &Vec<bool>) -> (r: Vec<Step>)
    requires
        cands.len() == present.len(),
    ensures
        r@ == update_plan(names_view(orig@), names_view(cands@), present@),
        written_names(names_view(orig@), names_view(cands@), r@)
            == merged_names(names_view(orig@), names_view(cands@), present@),
{
    let ghost ov = names_view(orig@);
    let ghost cv = names_view(cands@);
    let mut steps: Vec<Step> = Vec::new();
    let mut i: usize = 0;
    while i < orig.len()
        invariant
            0 <= i <= orig.len(),
            ov == names_view(orig@),
            cv == names_view(cands@),
            steps@ == keep_steps(ov, cv, i as int),
        decreases orig.len() - i,
    {
        assert(ov[i as int] == orig@[i as int]@);
        let k = find_first(cands, &orig[i]);
        proof { lemma_first_index(cv, ov[i as int]); }
        if k < cands.len() {
            steps.push(Step::Replace { at: i, source: k });
        } else {
            steps.push(Step::Copy { at: i });
        }
        i = i + 1;
    }
    let mut j: usize = 0;
    while j < cands.len()
        invariant
            0 <= j <= cands.len(),
            cands.len() == present.len(),
            ov == names_view(orig@),
            cv == names_view(cands@),
            steps@ == keep_steps(ov, cv, ov.len() as int) + add_steps(ov, cv, present@, j as int),
        decreases cands.len() - j,
    {
        assert(cv[j as int] == cands@[j as int]@);
        let k = find_first(orig, &cands[j]);
        let f = find_first(cands, &cands[j]);
        proof {
            lemma_first_index(ov, cv[j as int]);
        }
        let ghost before = steps@;
        if k == orig.len() && f == j {
            if present[j] {
                steps.push(Step::Add { source: j });
                assert(steps@ =~= keep_steps(ov, cv, ov.len() as int) + add_steps(ov, cv, present@, j as int + 1));
            } else {
                steps.push(Step::Missing { source: j });
                assert(steps@ =~= keep_steps(ov, cv, ov.len() as int) + add_steps(ov, cv, present@, j as int + 1));
            }
        }
        j = j + 1;
    }
    proof { lemma_update_names(ov, cv, present@); }
    steps
}

/// Plans the creation of an archive from the candidates named `cands`, of
/// which those with `present[i]` exist.
pub fn plan_create(cands: &Vec<String>, present: &Vec<bool>) -> (r: Vec<Step>)
    requires
        cands.len() == present.len(),
    ensures
        r@ == create_steps(present@, cands.len() as int),
        written_names(names_view(cands@), names_view(cands@), r@)
            == present_names(names_view(cands@), present@, cands.len() as int),
{
    let mut steps: Vec<Step> = Vec::new();
    let mut i: usize = 0;
    while i < present.len()
        invariant
            0 <= i <= present.len(),
            cands.len() == present.len(),
            steps@ == create_steps(present@, i as int),
        decreases present.len() - i,
    {
        if present[i] {
            steps.push(Step::Add { source: i });
        } else {
            steps.push(Step::Missing { source: i });
        }
        i = i + 1;
    }
    proof { lemma_create_plan_names(names_view(cands@), present@); }
    steps
}

/// The final component of a path, as `Path::file_name` gives it; empty for a
/// path that has none (such as `/` or one ending in `..`).
pub uninterp spec fn base_name_of(p: Seq<char>) -> Seq<char>;

/// Relies on std::path::Path::file_name: the final component of the path.
#[verifier::external_body]
fn base_name(p: &str) -> (r: String)
    ensures
        r@ == base_name_of(p@),
{
    match Path::new(p).file_name() {
        Some(n) => n.to_string_lossy().to_string(),
        None => String::new(),
    }
}

/// The entry name of each candidate path: its final component.
pub fn entry_names_for(paths: &Vec<String>) -> (r: Vec<String>)
    ensures
        r@.len() == paths@.len(),
        forall|i: int| 0 <= i < paths@.len() ==> #[trigger] r@[i]@ == base_name_of(paths@[i]@),
{
    let mut out: Vec<String> = Vec::new();
    let mut i: usize = 0;
    while i < paths.len()
        invariant
            0 <= i <= paths.len(),
            out@.len() == i,
            forall|j: int| 0 <= j < i ==> #[trigger] out@[j]@ == base_name_of(paths@[j]@),
        decreases paths.len() - i,
    {
        let n = base_name(paths[i].as_str());
        out.push(n);
        i = i + 1;
    }
    out
}

} // verus!
