use vstd::prelude::*;

verus! {

/// Time spent per named frame, in microseconds, and the names of the frames now open, innermost
/// last.
pub struct TimeManager {
    pub times: Vec<(String, u128)>,
    pub stack: Vec<String>,
}

/// The names of the entries, in order.
pub open spec fn entry_names(times: Seq<(String, u128)>) -> Seq<Seq<char>> {
    Seq::new(times.len(), |i: int| times[i].0@)
}

/// The sum of the times of the first `n` entries.
pub open spec fn total_time(times: Seq<(String, u128)>, n: int) -> int
    decreases n,
{
    if n <= 0 {
        0
    } else {
        total_time(times, n - 1) + times[n - 1].1
    }
}

/// No name has two entries.
pub open spec fn names_distinct(times: Seq<(String, u128)>) -> bool {
    forall|i: int, j: int| 0 <= i < j < times.len() ==> #[trigger] times[i].0@ != #[trigger] times[j].0@
}

/// The position of the entry named `name` among the first `n`, if any.
fn find_entry(times: &Vec<(String, u128)>, name: &String) -> (r: Option<usize>)
    ensures
        match r {
            Some(i) => i < times@.len() && times@[i as int].0@ == name@,
            None => !entry_names(times@).contains(name@),
        },
{
    let mut i: usize = 0;
    while i < times.len()
        invariant
            i <= times@.len(),
            forall|k: int| 0 <= k < i ==> (#[trigger] times@[k]).0@ != name@,
        decreases times@.len() - i,
    {
        if times[i].0 == *name {
            return Some(i);
        }
        i = i + 1;
    }
    proof {
        if entry_names(times@).contains(name@) {
            let k = choose|k: int| 0 <= k < times@.len() && entry_names(times@)[k] == name@;
            assert(times@[k].0@ == name@);
        }
    }
    None
}

proof fn lemma_total_update(times: Seq<(String, u128)>, i: int, v: (String, u128), n: int)
    requires
        0 <= i < times.len(),
        0 <= n <= times.len(),
    ensures
        total_time(times.update(i, v), n) == total_time(times, n) + if i < n {
            v.1 - times[i].1
        } else {
            0
        },
    decreases n,
{
    if n > 0 {
        lemma_total_update(times, i, v, n - 1);
    }
}

proof fn lemma_total_bounds(times: Seq<(String, u128)>, n: int)
    requires
        0 <= n <= times.len(),
    ensures
        total_time(times, n) >= 0,
        forall|k: int| 0 <= k < n ==> #[trigger] times[k].1 <= total_time(times, n),
    decreases n,
{
    if n > 0 {
        lemma_total_bounds(times, n - 1);
    }
}

impl TimeManager {
    /// No frames timed, none open.
    pub fn new() -> (r: Self)
        ensures
            r.times@.len() == 0,
            r.stack@.len() == 0,
    {
        TimeManager { times: Vec::new(), stack: Vec::new() }
    }

    /// A frame named `name` opens: the name gets an entry at 0 if it has none, and goes on the
    /// stack.
    pub fn frame_push(&mut self, name: String)
        requires
            names_distinct(old(self).times@),
        ensures
            names_distinct(final(self).times@),
            final(self).stack@ == old(self).stack@.push(name),
            entry_names(old(self).times@).contains(name@) ==> final(self).times@ == old(self).times@,
            !entry_names(old(self).times@).contains(name@) ==> final(self).times@ == old(self).times@.push(
                (name, 0u128),
            ),
    {
        match find_entry(&self.times, &name) {
            Some(i) => {
                assert(entry_names(self.times@)[i as int] == name@);
            },
            None => {
                let key = name.clone();
                let ghost before = self.times@;
                self.times.push((key, 0));
                proof {
                    assert(key == name);
                    assert(self.times@ =~= before.push((name, 0u128)));
                    assert forall|i: int, j: int| 0 <= i < j < self.times@.len() implies #[trigger] self.times@[i].0@
                        != #[trigger] self.times@[j].0@ by {
                        if j == before.len() {
                            assert(entry_names(before)[i] == before[i].0@);
                        }
                    }
                }
            },
        }
        self.stack.push(name);
    }

    /// The innermost frame, named `name`, closes after `elapsed` microseconds: the time is
    /// added to the name's entry and the stack is popped. When no frame is left open, returns
    /// every entry and their total, for a report; otherwise nothing.
    pub fn frame_pop(&mut self, name: &String, elapsed: u128) -> (r: Option<(Vec<(String, u128)>, u128)>)
        requires
            names_distinct(old(self).times@),
            entry_names(old(self).times@).contains(name@),
            forall|j: int|
                0 <= j < old(self).times@.len() && old(self).times@[j].0@ == name@ ==> old(self).times@[j].1
                    + elapsed <= u128::MAX,
            old(self).stack@.len() <= 1 ==> total_time(old(self).times@, old(self).times@.len() as int) + elapsed
                <= u128::MAX,
        ensures
            names_distinct(final(self).times@),
            final(self).stack@ == if old(self).stack@.len() == 0 {
                old(self).stack@
            } else {
                old(self).stack@.drop_last()
            },
            exists|i: int|
                0 <= i < old(self).times@.len() && old(self).times@[i].0@ == name@ && final(self).times@
                    == old(self).times@.update(i, (old(self).times@[i].0, (old(self).times@[i].1 + elapsed) as u128)),
            total_time(final(self).times@, final(self).times@.len() as int) == total_time(
                old(self).times@,
                old(self).times@.len() as int,
            ) + elapsed,
            match r {
                Some(report) => final(self).stack@.len() == 0 && report.0@ == final(self).times@
                    && report.1 == total_time(final(self).times@, final(self).times@.len() as int),
                None => final(self).stack@.len() > 0,
            },
    {
        let i = match find_entry(&self.times, name) {
            Some(i) => i,
            None => {
                proof {
                    assert(false);
                }
                0
            },
        };
        let t = self.times[i].1 + elapsed;
        let key = self.times[i].0.clone();
        let ghost before = self.times@;
        self.times.set(i, (key, t));
        proof {
            lemma_total_update(before, i as int, (key, t), before.len() as int);
            assert forall|a: int, b: int| 0 <= a < b < self.times@.len() implies #[trigger] self.times@[a].0@
                != #[trigger] self.times@[b].0@ by {
                assert(before[a].0@ != before[b].0@);
            }
        }
        self.stack.pop();
        if self.stack.len() == 0 {
            let mut total: u128 = 0;
            let mut k: usize = 0;
            let mut report: Vec<(String, u128)> = Vec::new();
            proof {
                lemma_total_bounds(self.times@, self.times@.len() as int);
            }
            while k < self.times.len()
                invariant
                    k <= self.times@.len(),
                    total == total_time(self.times@, k as int),
                    total_time(self.times@, self.times@.len() as int) <= u128::MAX,
                    report@ == self.times@.take(k as int),
                decreases self.times@.len() - k,
            {
                proof {
                    lemma_total_bounds(self.times@, k + 1);
                    lemma_prefix_total(self.times@, k + 1, self.times@.len() as int);
                }
                total = total + self.times[k].1;
                let entry_name = self.times[k].0.clone();
                report.push((entry_name, self.times[k].1));
                proof {
                    assert(self.times@.take(k + 1) =~= self.times@.take(k as int).push(self.times@[k as int]));
                }
                k = k + 1;
            }
            proof {
                assert(self.times@.take(self.times@.len() as int) =~= self.times@);
            }
            return Some((report, total));
        }
        None
    }
}

proof fn lemma_prefix_total(times: Seq<(String, u128)>, k: int, n: int)
    requires
        0 <= k <= n <= times.len(),
    ensures
        total_time(times, k) <= total_time(times, n),
    decreases n,
{
    if k < n {
        lemma_prefix_total(times, k, n - 1);
    }
}

} // verus!
