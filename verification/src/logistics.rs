use vstd::prelude::*;
use vstd::string::StrSliceExecFns;

verus! {

/// Named integer quantities, each name once.
#[derive(Clone, Debug, PartialEq, Eq, Hash)]
pub struct State {
    pub list: Vec<(String, i64)>,
}

/// The names of a list of entries, in order.
pub open spec fn names_of(list: Seq<(String, i64)>) -> Seq<Seq<char>> {
    Seq::new(list.len(), |i: int| list[i].0@)
}

/// The names of the state, in order.
pub open spec fn names(s: &State) -> Seq<Seq<char>> {
    names_of(s.list@)
}

/// The values of the state, in order.
pub open spec fn values(s: &State) -> Seq<i64> {
    Seq::new(s.list@.len(), |i: int| s.list@[i].1)
}

/// No name occurs twice.
pub open spec fn state_wf(s: &State) -> bool {
    forall|i: int, j: int|
        0 <= i < j < s.list@.len() ==> #[trigger] s.list@[i].0@ != #[trigger] s.list@[j].0@
}

/// `a` comes before `b` in the order of names: character by character, by code point, a
/// proper prefix first.
pub open spec fn name_less(a: Seq<char>, b: Seq<char>) -> bool
    decreases a.len(),
{
    if a.len() == 0 {
        b.len() > 0
    } else if b.len() == 0 {
        false
    } else if a[0] != b[0] {
        (a[0] as int) < (b[0] as int)
    } else {
        name_less(a.drop_first(), b.drop_first())
    }
}

/// The names of the state are in strictly ascending order.
pub open spec fn names_ascending(list: Seq<(String, i64)>) -> bool {
    forall|i: int, j: int| 0 <= i < j < list.len() ==> name_less(#[trigger] list[i].0@, #[trigger] list[j].0@)
}

/// No name comes before itself.
pub proof fn lemma_name_less_irreflexive(a: Seq<char>)
    ensures
        !name_less(a, a),
    decreases a.len(),
{
    if a.len() > 0 {
        lemma_name_less_irreflexive(a.drop_first());
    }
}

/// The order of names is transitive.
pub proof fn lemma_name_less_transitive(a: Seq<char>, b: Seq<char>, c: Seq<char>)
    requires
        name_less(a, b),
        name_less(b, c),
    ensures
        name_less(a, c),
    decreases a.len(),
{
    if a.len() > 0 && b.len() > 0 && c.len() > 0 && a[0] == b[0] && b[0] == c[0] {
        lemma_name_less_transitive(a.drop_first(), b.drop_first(), c.drop_first());
    }
}

/// Of two different names, one comes before the other.
pub proof fn lemma_name_less_total(a: Seq<char>, b: Seq<char>)
    requires
        a != b,
    ensures
        name_less(a, b) || name_less(b, a),
    decreases a.len(),
{
    if a.len() == 0 {
        if b.len() == 0 {
            assert(a =~= b);
        }
    } else if b.len() > 0 && a[0] == b[0] {
        if a.drop_first() == b.drop_first() {
            assert(a =~= seq![a[0]] + a.drop_first());
            assert(b =~= seq![b[0]] + b.drop_first());
        }
        lemma_name_less_total(a.drop_first(), b.drop_first());
    }
}

proof fn lemma_name_less_skip(a: Seq<char>, b: Seq<char>, i: int)
    requires
        0 <= i <= a.len(),
        i <= b.len(),
        a.take(i) == b.take(i),
    ensures
        name_less(a, b) == name_less(a.skip(i), b.skip(i)),
    decreases i,
{
    if i > 0 {
        assert(a[0] == a.take(i)[0]);
        assert(b[0] == b.take(i)[0]);
        assert(a.drop_first().take(i - 1) =~= a.take(i).drop_first());
        assert(b.drop_first().take(i - 1) =~= b.take(i).drop_first());
        lemma_name_less_skip(a.drop_first(), b.drop_first(), i - 1);
        assert(a.drop_first().skip(i - 1) =~= a.skip(i));
        assert(b.drop_first().skip(i - 1) =~= b.skip(i));
    } else {
        assert(a.skip(0) =~= a);
        assert(b.skip(0) =~= b);
    }
}

/// Compares two names: below 0 when `a` comes first, 0 when they are equal, above 0 when `b`
/// comes first.
pub fn compare_names(a: &String, b: &String) -> (r: i8)
    ensures
        r < 0 <==> name_less(a@, b@),
        r == 0 <==> a@ == b@,
        r > 0 <==> name_less(b@, a@),
{
    let sa = a.as_str();
    let sb = b.as_str();
    let la = sa.unicode_len();
    let lb = sb.unicode_len();
    let mut i: usize = 0;
    while i < la && i < lb
        invariant
            la == a@.len(),
            lb == b@.len(),
            sa@ == a@,
            sb@ == b@,
            i <= la,
            i <= lb,
            a@.take(i as int) == b@.take(i as int),
        decreases la - i,
    {
        let ca = sa.get_char(i);
        let cb = sb.get_char(i);
        if ca != cb {
            proof {
                lemma_name_less_skip(a@, b@, i as int);
                lemma_name_less_skip(b@, a@, i as int);
                assert(a@.skip(i as int)[0] == ca);
                assert(b@.skip(i as int)[0] == cb);
            }
            if (ca as u32) < (cb as u32) {
                return -1;
            } else {
                return 1;
            }
        }
        proof {
            assert(a@.take(i + 1) =~= a@.take(i as int).push(ca));
            assert(b@.take(i + 1) =~= b@.take(i as int).push(cb));
        }
        i = i + 1;
    }
    proof {
        lemma_name_less_skip(a@, b@, i as int);
        lemma_name_less_skip(b@, a@, i as int);
        if la == lb {
            assert(a@ =~= a@.take(i as int));
            assert(b@ =~= b@.take(i as int));
        } else {
            assert(a@.len() != b@.len());
        }
    }
    if la < lb {
        -1
    } else if la == lb {
        0
    } else {
        1
    }
}

/// Whether some entry of `inputs` has name `k`.
pub open spec fn input_has(inputs: Seq<(&str, i64)>, k: Seq<char>) -> bool {
    exists|i: int| 0 <= i < inputs.len() && (#[trigger] inputs[i]).0@ == k
}

/// The value of the last entry of `inputs` named `k`.
pub open spec fn last_value(inputs: Seq<(&str, i64)>, k: Seq<char>) -> i64
    decreases inputs.len(),
{
    if inputs.len() == 0 {
        0
    } else if inputs.last().0@ == k {
        inputs.last().1
    } else {
        last_value(inputs.drop_last(), k)
    }
}

/// A requirement on one measured quantity of a state: at least (`ge`) or at most the
/// threshold.
pub struct Constraint<F> {
    pub value: F,
    pub ge: bool,
    pub threshold: i64,
}

/// Whether a measured value meets the constraint's bound.
pub open spec fn within(ge: bool, threshold: i64, v: i64) -> bool {
    if ge {
        v >= threshold
    } else {
        v <= threshold
    }
}

/// The constraint's measure may give `v` on `s`, and `v` meets the bound.
pub open spec fn met_by<F: Fn(&State) -> i64>(c: &Constraint<F>, s: &State, v: i64) -> bool {
    call_ensures(c.value, (s,), v) && within(c.ge, c.threshold, v)
}

/// The constraint's measure may give `v` on `s`, and `v` misses the bound.
pub open spec fn missed_by<F: Fn(&State) -> i64>(c: &Constraint<F>, s: &State, v: i64) -> bool {
    call_ensures(c.value, (s,), v) && !within(c.ge, c.threshold, v)
}

/// An objective to maximize or minimize over states, subject to constraints.
pub struct ConstraintSet<G, F> {
    pub maximize: G,
    pub should_maximize: bool,
    pub constraints: Vec<Constraint<F>>,
}

/// Every measure of the set can be taken on `s`.
pub open spec fn measurable<G: Fn(&State) -> i64, F: Fn(&State) -> i64>(
    cs: &ConstraintSet<G, F>,
    s: &State,
) -> bool {
    &&& call_requires(cs.maximize, (s,))
    &&& forall|i: int| 0 <= i < cs.constraints@.len() ==> call_requires((#[trigger] cs.constraints@[i]).value, (s,))
}

/// The constraint was measured on `s` and met.
pub open spec fn constraint_met<F: Fn(&State) -> i64>(c: &Constraint<F>, s: &State) -> bool {
    exists|v: i64| #[trigger] met_by(c, s, v)
}

/// Every constraint was measured on `s` and met.
pub open spec fn passes<G, F: Fn(&State) -> i64>(cs: &ConstraintSet<G, F>, s: &State) -> bool {
    forall|i: int| 0 <= i < cs.constraints@.len() ==> #[trigger] constraint_met(&cs.constraints@[i], s)
}

/// Some constraint was measured on `s` and missed.
pub open spec fn fails<G, F: Fn(&State) -> i64>(cs: &ConstraintSet<G, F>, s: &State) -> bool {
    exists|i: int, v: i64| 0 <= i < cs.constraints@.len() && #[trigger] missed_by(&cs.constraints@[i], s, v)
}

/// The entries of `list`, which hold each name once, put in ascending order of name.
fn sort_entries(list: &Vec<(String, i64)>) -> (r: Vec<(String, i64)>)
    requires
        forall|a: int, b: int| 0 <= a < b < list@.len() ==> #[trigger] list@[a].0@ != #[trigger] list@[b].0@,
    ensures
        r@.len() == list@.len(),
        names_ascending(r@),
        forall|e: (String, i64)| #[trigger] r@.contains(e) <==> list@.contains(e),
{
    let mut out: Vec<(String, i64)> = Vec::new();
    let mut i: usize = 0;
    while i < list.len()
        invariant
            i <= list@.len(),
            forall|a: int, b: int| 0 <= a < b < list@.len() ==> #[trigger] list@[a].0@ != #[trigger] list@[b].0@,
            out@.len() == i,
            names_ascending(out@),
            forall|e: (String, i64)| #[trigger] out@.contains(e) <==> list@.take(i as int).contains(e),
        decreases list@.len() - i,
    {
        let e = (list[i].0.clone(), list[i].1);
        assert(e == list@[i as int]);
        let mut pos: usize = 0;
        while pos < out.len() && compare_names(&out[pos].0, &e.0) < 0
            invariant
                pos <= out@.len(),
                forall|q: int| 0 <= q < pos ==> name_less((#[trigger] out@[q]).0@, e.0@),
            decreases out@.len() - pos,
        {
            pos = pos + 1;
        }
        let ghost prev = out@;
        proof {
            if pos < prev.len() {
                assert(prev.contains(prev[pos as int]));
                assert(list@.take(i as int).contains(prev[pos as int]));
                let w = choose|w: int| 0 <= w < i && list@.take(i as int)[w] == prev[pos as int];
                assert(list@[w] == prev[pos as int]);
                assert(prev[pos as int].0@ != e.0@);
                assert(!name_less(prev[pos as int].0@, e.0@));
                lemma_name_less_total(prev[pos as int].0@, e.0@);
            }
        }
        out.insert(pos, e);
        proof {
            assert forall|a: int, b: int| 0 <= a < b < out@.len() implies name_less(
                #[trigger] out@[a].0@,
                #[trigger] out@[b].0@,
            ) by {
                if b < pos {
                    assert(out@[a] == prev[a] && out@[b] == prev[b]);
                } else if b == pos {
                    assert(out@[a] == prev[a]);
                } else if a < pos {
                    assert(out@[a] == prev[a] && out@[b] == prev[b - 1]);
                    if b - 1 > pos {
                        assert(name_less(prev[pos as int].0@, prev[b - 1].0@));
                        lemma_name_less_transitive(e.0@, prev[pos as int].0@, prev[b - 1].0@);
                    }
                    lemma_name_less_transitive(prev[a].0@, e.0@, prev[b - 1].0@);
                } else if a == pos {
                    assert(out@[b] == prev[b - 1]);
                    if b - 1 > pos {
                        assert(name_less(prev[pos as int].0@, prev[b - 1].0@));
                        lemma_name_less_transitive(e.0@, prev[pos as int].0@, prev[b - 1].0@);
                    }
                } else {
                    assert(out@[a] == prev[a - 1] && out@[b] == prev[b - 1]);
                }
            }
            assert(list@.take(i + 1) =~= list@.take(i as int).push(e));
            assert forall|x: (String, i64)| #[trigger] out@.contains(x) <==> list@.take(i + 1).contains(x) by {
                if out@.contains(x) {
                    let w = choose|w: int| 0 <= w < out@.len() && out@[w] == x;
                    if w == pos {
                        assert(list@.take(i + 1)[i as int] == x);
                    } else {
                        let z = if w < pos { w } else { w - 1 };
                        assert(prev[z] == x);
                        assert(prev.contains(x));
                        assert(list@.take(i as int).contains(x));
                        let u = choose|u: int| 0 <= u < i && #[trigger] list@.take(i as int)[u] == x;
                        assert(list@.take(i + 1)[u] == x);
                    }
                }
                if list@.take(i + 1).contains(x) {
                    let w = choose|w: int| 0 <= w < i + 1 && #[trigger] list@.take(i + 1)[w] == x;
                    if w < i {
                        assert(list@.take(i as int)[w] == x);
                        assert(list@.take(i as int).contains(x));
                        assert(prev.contains(x));
                        let z = choose|z: int| 0 <= z < prev.len() && prev[z] == x;
                        if z < pos {
                            assert(out@[z] == x);
                        } else {
                            assert(out@[z + 1] == x);
                        }
                    } else {
                        assert(out@[pos as int] == x);
                    }
                }
            }
        }
        i = i + 1;
    }
    proof {
        assert(list@.take(list@.len() as int) =~= list@);
    }
    out
}

impl State {
    /// A state with the given names and values; a name given twice keeps its last value. The
    /// names are kept in ascending order.
    pub fn new(values: &[(&str, i64)]) -> (r: State)
        ensures
            state_wf(&r),
            forall|k: Seq<char>| #[trigger] names(&r).contains(k) <==> input_has(values@, k),
            forall|j: int|
                0 <= j < r.list@.len() ==> (#[trigger] r.list@[j]).1 == last_value(values@, r.list@[j].0@),
            names_ascending(r.list@),
    {
        let mut list: Vec<(String, i64)> = Vec::new();
        let mut i: usize = 0;
        while i < values.len()
            invariant
                i <= values@.len(),
                forall|a: int, b: int| 0 <= a < b < list@.len() ==> #[trigger] list@[a].0@ != #[trigger] list@[b].0@,
                forall|k: Seq<char>|
                    #[trigger] names_of(list@).contains(k) <==> input_has(values@.take(i as int), k),
                forall|j: int|
                    0 <= j < list@.len() ==> (#[trigger] list@[j]).1 == last_value(
                        values@.take(i as int),
                        list@[j].0@,
                    ),
            decreases values@.len() - i,
        {
            let (k, v) = values[i];
            let key = k.to_owned();
            let ghost prev = list@;
            let ghost taken = values@.take(i as int + 1);
            assert(taken.drop_last() =~= values@.take(i as int));
            assert(taken.last() == values@[i as int]);
            let mut j: usize = 0;
            let mut found = false;
            while j < list.len() && !found
                invariant
                    j <= list@.len(),
                    list@ == prev,
                    found ==> j < list@.len() && list@[j as int].0@ == key@,
                    forall|m: int| 0 <= m < j ==> (#[trigger] list@[m]).0@ != key@,
                decreases list@.len() - j, (if found { 0int } else { 1int }),
            {
                if list[j].0 == key {
                    found = true;
                } else {
                    j = j + 1;
                }
            }
            if found {
                let name = list[j].0.clone();
                list.set(j, (name, v));
                proof {
                    assert forall|m: int| 0 <= m < list@.len() implies (#[trigger] list@[m]).1
                        == last_value(taken, list@[m].0@) by {
                        if m != j {
                            assert(prev[m].0@ != key@) by {
                                assert(prev[m].0@ != prev[j as int].0@ || m == j);
                            }
                        }
                    }
                    assert forall|kk: Seq<char>|
                        input_has(taken, kk) implies #[trigger] names_of(list@).contains(kk) by {
                        let w = choose|w: int| 0 <= w < taken.len() && (#[trigger] taken[w]).0@ == kk;
                        if w < i {
                            assert(values@.take(i as int)[w] == taken[w]);
                            assert(names_of(prev).contains(kk));
                            let z = choose|z: int| 0 <= z < prev.len() && names_of(prev)[z] == kk;
                            assert(names_of(list@)[z] == kk);
                        } else {
                            assert(names_of(list@)[j as int] == kk);
                        }
                    }
                    assert forall|kk: Seq<char>|
                        #[trigger] names_of(list@).contains(kk) implies input_has(taken, kk) by {
                        {
                            let z = choose|z: int| 0 <= z < list@.len() && names_of(list@)[z] == kk;
                            if z == j {
                                assert(taken[i as int].0@ == kk);
                            } else {
                                assert(names_of(prev)[z] == kk);
                                assert(names_of(prev).contains(kk));
                                let w = choose|w: int|
                                    0 <= w < i && (#[trigger] values@.take(i as int)[w]).0@ == kk;
                                assert(taken[w] == values@.take(i as int)[w]);
                            }
                        }
                    }
                }
            } else {
                list.push((key, v));
                proof {
                    assert forall|m: int| 0 <= m < list@.len() implies (#[trigger] list@[m]).1
                        == last_value(taken, list@[m].0@) by {
                        if m < prev.len() {
                            assert(prev[m].0@ != key@);
                        }
                    }
                    assert forall|kk: Seq<char>|
                        input_has(taken, kk) implies #[trigger] names_of(list@).contains(kk) by {
                        let w = choose|w: int| 0 <= w < taken.len() && (#[trigger] taken[w]).0@ == kk;
                        if w < i {
                            assert(values@.take(i as int)[w] == taken[w]);
                            assert(names_of(prev).contains(kk));
                            let z = choose|z: int| 0 <= z < prev.len() && names_of(prev)[z] == kk;
                            assert(names_of(list@)[z] == kk);
                        } else {
                            assert(names_of(list@)[prev.len() as int] == kk);
                        }
                    }
                    assert forall|kk: Seq<char>|
                        #[trigger] names_of(list@).contains(kk) implies input_has(taken, kk) by {
                        {
                            let z = choose|z: int| 0 <= z < list@.len() && names_of(list@)[z] == kk;
                            if z == prev.len() {
                                assert(taken[i as int].0@ == kk);
                            } else {
                                assert(names_of(prev)[z] == kk);
                                assert(names_of(prev).contains(kk));
                                let w = choose|w: int|
                                    0 <= w < i && (#[trigger] values@.take(i as int)[w]).0@ == kk;
                                assert(taken[w] == values@.take(i as int)[w]);
                            }
                        }
                    }
                }
            }
            i = i + 1;
        }
        proof {
            assert(values@.take(values@.len() as int) =~= values@);
        }
        let sorted = sort_entries(&list);
        proof {
            assert forall|a: int, b: int| 0 <= a < b < sorted@.len() implies #[trigger] sorted@[a].0@
                != #[trigger] sorted@[b].0@ by {
                lemma_name_less_irreflexive(sorted@[a].0@);
            }
            assert forall|j: int| 0 <= j < sorted@.len() implies (#[trigger] sorted@[j]).1 == last_value(
                values@,
                sorted@[j].0@,
            ) by {
                assert(sorted@.contains(sorted@[j]));
                let w = choose|w: int| 0 <= w < list@.len() && list@[w] == sorted@[j];
                assert(list@[w].1 == last_value(values@, list@[w].0@));
            }
            assert forall|k: Seq<char>| #[trigger] names_of(sorted@).contains(k) <==> names_of(list@).contains(k) by {
                if names_of(sorted@).contains(k) {
                    let z = choose|z: int| 0 <= z < sorted@.len() && names_of(sorted@)[z] == k;
                    assert(sorted@.contains(sorted@[z]));
                    let w = choose|w: int| 0 <= w < list@.len() && list@[w] == sorted@[z];
                    assert(names_of(list@)[w] == k);
                }
                if names_of(list@).contains(k) {
                    let z = choose|z: int| 0 <= z < list@.len() && names_of(list@)[z] == k;
                    assert(list@.contains(list@[z]));
                    assert(sorted@.contains(list@[z]));
                    let w = choose|w: int| 0 <= w < sorted@.len() && sorted@[w] == list@[z];
                    assert(names_of(sorted@)[w] == k);
                }
            }
        }
        State { list: sorted }
    }

    /// The value named `name`; the name must be in the state.
    pub fn get(&self, name: &str) -> (r: i64)
        requires
            names(self).contains(name@),
        ensures
            exists|j: int| 0 <= j < self.list@.len() && (#[trigger] self.list@[j]).0@ == name@ && r == self.list@[j].1,
    {
        let key = name.to_owned();
        let mut j: usize = 0;
        while j < self.list.len()
            invariant
                j <= self.list@.len(),
                key@ == name@,
                names(self).contains(name@),
                forall|m: int| 0 <= m < j ==> (#[trigger] self.list@[m]).0@ != name@,
            decreases self.list@.len() - j,
        {
            if self.list[j].0 == key {
                return self.list[j].1;
            }
            j = j + 1;
        }
        proof {
            let z = choose|z: int| 0 <= z < self.list@.len() && names(self)[z] == name@;
            assert(self.list@[z].0@ != name@);
        }
        0
    }

    /// A copy of the state.
    pub fn copy(&self) -> (r: State)
        ensures
            r.list@ == self.list@,
    {
        let mut list: Vec<(String, i64)> = Vec::new();
        let mut i: usize = 0;
        while i < self.list.len()
            invariant
                i <= self.list@.len(),
                list@ == self.list@.take(i as int),
            decreases self.list@.len() - i,
        {
            let name = self.list[i].0.clone();
            list.push((name, self.list[i].1));
            proof {
                assert(self.list@.take(i as int + 1) =~= self.list@.take(i as int).push(self.list@[i as int]));
            }
            i = i + 1;
        }
        proof {
            assert(self.list@.take(self.list@.len() as int) =~= self.list@);
        }
        State { list }
    }
}

impl<F: Fn(&State) -> i64> Constraint<F> {
    /// The measure must be at least `threshold`.
    pub fn ge(func: F, threshold: i64) -> (r: Self)
        ensures
            r.value == func,
            r.ge,
            r.threshold == threshold,
    {
        Constraint { value: func, ge: true, threshold }
    }

    /// The measure must be at most `threshold`.
    pub fn le(func: F, threshold: i64) -> (r: Self)
        ensures
            r.value == func,
            !r.ge,
            r.threshold == threshold,
    {
        Constraint { value: func, ge: false, threshold }
    }

    /// Whether the measured value `v` meets the bound.
    pub fn accepts(&self, v: i64) -> (r: bool)
        ensures
            r == within(self.ge, self.threshold, v),
    {
        if self.ge {
            v >= self.threshold
        } else {
            v <= self.threshold
        }
    }
}

impl<G: Fn(&State) -> i64, F: Fn(&State) -> i64> ConstraintSet<G, F> {
    /// Whether `s` meets every constraint, measuring them in order and stopping at the first
    /// one missed.
    pub fn is_valid(&self, s: &State) -> (r: bool)
        requires
            measurable(self, s),
        ensures
            r ==> passes(self, s),
            !r ==> fails(self, s),
    {
        let mut i: usize = 0;
        while i < self.constraints.len()
            invariant
                i <= self.constraints@.len(),
                measurable(self, s),
                forall|k: int| 0 <= k < i ==> #[trigger] constraint_met(&self.constraints@[k], s),
            decreases self.constraints@.len() - i,
        {
            let c = &self.constraints[i];
            assert(call_requires(self.constraints@[i as int].value, (s,)));
            let v = (c.value)(s);
            if !c.accepts(v) {
                assert(missed_by(&self.constraints@[i as int], s, v));
                return false;
            }
            assert(met_by(&self.constraints@[i as int], s, v));
            i = i + 1;
        }
        true
    }

    /// An objective to maximize under the constraints.
    pub fn maximize(to_maximize: G, constraints: Vec<Constraint<F>>) -> (r: Self)
        ensures
            r.maximize == to_maximize,
            r.should_maximize,
            r.constraints@ == constraints@,
    {
        ConstraintSet { maximize: to_maximize, should_maximize: true, constraints }
    }

    /// An objective to minimize under the constraints.
    pub fn minimize(to_minimize: G, constraints: Vec<Constraint<F>>) -> (r: Self)
        ensures
            r.maximize == to_minimize,
            !r.should_maximize,
            r.constraints@ == constraints@,
    {
        ConstraintSet { maximize: to_minimize, should_maximize: false, constraints }
    }
}

/// The two states have the same names, position by position.
pub open spec fn same_names(a: &State, b: &State) -> bool {
    a.list@.len() == b.list@.len() && forall|i: int| 0 <= i < a.list@.len() ==> #[trigger] a.list@[i].0
        == b.list@[i].0
}

/// A list's entries as names and values.
pub open spec fn list_entries(l: Seq<(String, i64)>) -> Seq<(Seq<char>, i64)> {
    Seq::new(l.len(), |i: int| (l[i].0@, l[i].1))
}

/// The state's entries as names and values.
pub open spec fn entries(s: &State) -> Seq<(Seq<char>, i64)> {
    list_entries(s.list@)
}

/// The list with the value at `idx` one higher (`up`) or one lower, as the only element of
/// the result; nothing when that value would leave the range of `i64`.
pub open spec fn step_of(l: Seq<(String, i64)>, idx: int, up: bool) -> Seq<Seq<(String, i64)>> {
    let v = l[idx].1;
    if up {
        if v == i64::MAX {
            Seq::empty()
        } else {
            seq![l.update(idx, (l[idx].0, (v + 1) as i64))]
        }
    } else {
        if v == i64::MIN {
            Seq::empty()
        } else {
            seq![l.update(idx, (l[idx].0, (v - 1) as i64))]
        }
    }
}

/// The neighbours of `l` that change the value at one position below `b`, other than `a`, by
/// one: position by position, first the one raised, then the one lowered.
spec fn neighbours_below(l: Seq<(String, i64)>, a: int, b: nat) -> Seq<Seq<(String, i64)>>
    decreases b,
{
    if b == 0 {
        Seq::empty()
    } else {
        let prev = neighbours_below(l, a, (b - 1) as nat);
        if b - 1 == a {
            prev
        } else {
            prev + step_of(l, b - 1, true) + step_of(l, b - 1, false)
        }
    }
}

/// One of the first `m` states of `tried` has the same names and values as the list `l`.
spec fn held_below(tried: Seq<State>, m: int, l: Seq<(String, i64)>) -> bool {
    exists|i: int| 0 <= i < m && #[trigger] entries(&tried[i]) == list_entries(l)
}

/// Some state with the list `l` was measured and missed a constraint.
spec fn refused<G, F: Fn(&State) -> i64>(cs: &ConstraintSet<G, F>, l: Seq<(String, i64)>) -> bool {
    exists|t: State| t.list@ == l && #[trigger] fails(cs, &t)
}

/// A state of `stack` from position `from` on has the list `l`.
spec fn pushed_from(stack: Seq<State>, from: int, l: Seq<(String, i64)>) -> bool {
    exists|i: int| from <= i < stack.len() && (#[trigger] stack[i]).list@ == l
}

/// The list of `x` comes before that of `y` among the candidate lists `cands`.
spec fn listed_before(x: &State, y: &State, cands: Seq<Seq<(String, i64)>>) -> bool {
    exists|k1: int, k2: int|
        #![trigger cands[k1], cands[k2]]
        0 <= k1 < k2 < cands.len() && x.list@ == cands[k1] && y.list@ == cands[k2]
}

/// The neighbours of `s` that change the value at one position other than `a` by one.
spec fn neighbours(s: &State, a: int) -> Seq<Seq<(String, i64)>> {
    neighbours_below(s.list@, a, s.list@.len())
}

/// What offering the candidate lists `cands` in order did, given that `stack` held `n0`
/// states and `tried` held `t0` states before: each state pushed since meets every constraint
/// and has the list of a candidate that, with `filter` set, was not among the states tried
/// before it; the pushed states come in the order of their candidates; each candidate was
/// pushed, or missed a constraint, or, with `filter` set, was among the states tried before
/// it; with `filter` set every candidate was recorded as tried, in order, and without it
/// nothing was.
spec fn offered<G, F: Fn(&State) -> i64>(
    cs: &ConstraintSet<G, F>,
    filter: bool,
    stack: Seq<State>,
    n0: int,
    tried: Seq<State>,
    t0: int,
    cands: Seq<Seq<(String, i64)>>,
) -> bool {
    &&& 0 <= n0 <= stack.len()
    &&& forall|i: int|
        n0 <= i < stack.len() ==> passes(cs, &#[trigger] stack[i]) && exists|k: int|
            0 <= k < cands.len() && stack[i].list@ == #[trigger] cands[k] && !(filter && held_below(
                tried,
                t0 + k,
                cands[k],
            ))
    &&& forall|i: int, j: int|
        n0 <= i < j < stack.len() ==> #[trigger] listed_before(&stack[i], &stack[j], cands)
    &&& forall|k: int|
        0 <= k < cands.len() ==> pushed_from(stack, n0, #[trigger] cands[k]) || refused(cs, cands[k])
            || (filter && held_below(tried, t0 + k, cands[k]))
    &&& 0 <= t0
    &&& !filter ==> tried.len() == t0
    &&& filter ==> tried.len() == t0 + cands.len() && forall|k: int|
        0 <= k < cands.len() ==> (#[trigger] tried[t0 + k]).list@ == cands[k]
}

/// Offering one more candidate `t` the way `push_candidate` does extends what `offered` says
/// by its list.
proof fn lemma_offer_one<G, F: Fn(&State) -> i64>(
    cs: &ConstraintSet<G, F>,
    filter: bool,
    ts0: Seq<State>,
    ts1: Seq<State>,
    n0: int,
    tr0: Seq<State>,
    tr1: Seq<State>,
    t0: int,
    cands: Seq<Seq<(String, i64)>>,
    t: State,
)
    requires
        offered(cs, filter, ts0, n0, tr0, t0, cands),
        !filter ==> tr1 == tr0,
        filter ==> tr1.len() == tr0.len() + 1 && tr1.drop_last() == tr0 && tr1.last().list@ == t.list@,
        ts1 == ts0 || ts1 == ts0.push(t),
        ts1.len() > ts0.len() ==> passes(cs, &t) && !(filter && held_below(tr0, tr0.len() as int, t.list@)),
        ts1.len() == ts0.len() ==> fails(cs, &t) || (filter && held_below(tr0, tr0.len() as int, t.list@)),
    ensures
        offered(cs, filter, ts1, n0, tr1, t0, cands.push(t.list@)),
        forall|i: int| 0 <= i < ts0.len() ==> ts1[i] == ts0[i],
        forall|i: int| 0 <= i < tr0.len() ==> tr1[i] == tr0[i],
        ts1.len() == ts0.len() || ts1.last() == t,
{
    let kn = cands.len() as int;
    assert forall|i: int| 0 <= i < tr0.len() implies tr1[i] == tr0[i] by {
        if filter {
            assert(tr1.drop_last()[i] == tr1[i]);
        }
    }
    assert forall|i: int| 0 <= i < ts0.len() implies ts1[i] == ts0[i] by {
        if ts1 != ts0 {
            assert(ts1 == ts0.push(t));
        }
    }
    assert forall|k: int| 0 <= k <= kn implies held_below(tr0, t0 + k, cands.push(t.list@)[k]) == held_below(tr1, t0 + k, cands.push(t.list@)[k])
        by {
        if filter {
            lemma_held_prefix(tr0, tr1, t0 + k, cands.push(t.list@)[k]);
        }
    }
    assert forall|i: int|
        n0 <= i < ts1.len() implies passes(cs, &#[trigger] ts1[i]) && exists|k: int|
            0 <= k < cands.push(t.list@).len() && ts1[i].list@ == #[trigger] cands.push(t.list@)[k] && !(filter && held_below(
                tr1,
                t0 + k,
                cands.push(t.list@)[k],
            )) by {
        if i < ts0.len() {
            let k = choose|k: int|
                0 <= k < cands.len() && ts0[i].list@ == #[trigger] cands[k] && !(filter && held_below(
                    tr0,
                    t0 + k,
                    cands[k],
                ));
            assert(cands.push(t.list@)[k] == cands[k]);
        } else {
            assert(ts1 == ts0.push(t));
            assert(ts1[i] == t);
            assert(cands.push(t.list@)[kn] == t.list@);
        }
    }
    assert forall|i: int, j: int|
        n0 <= i < j < ts1.len() implies #[trigger] listed_before(
            &ts1[i],
            &ts1[j],
            cands.push(t.list@),
        ) by {
        if j < ts0.len() {
            assert(listed_before(&ts0[i], &ts0[j], cands));
            let (k1, k2) = choose|k1: int, k2: int|
                #![trigger cands[k1], cands[k2]]
                0 <= k1 < k2 < cands.len() && ts0[i].list@ == cands[k1] && ts0[j].list@ == cands[k2];
            assert(cands.push(t.list@)[k1] == cands[k1] && cands.push(t.list@)[k2] == cands[k2]);
        } else {
            assert(ts1 == ts0.push(t));
            let k1 = choose|k: int|
                0 <= k < cands.len() && ts0[i].list@ == #[trigger] cands[k] && !(filter && held_below(
                    tr0,
                    t0 + k,
                    cands[k],
                ));
            assert(cands.push(t.list@)[k1] == cands[k1]);
            assert(cands.push(t.list@)[kn] == t.list@);
        }
    }
    assert forall|k: int|
        0 <= k < cands.push(t.list@).len() implies pushed_from(ts1, n0, #[trigger] cands.push(t.list@)[k]) || refused(cs, cands.push(t.list@)[k]) || (filter
            && held_below(tr1, t0 + k, cands.push(t.list@)[k])) by {
        if k < kn {
            assert(cands.push(t.list@)[k] == cands[k]);
            if pushed_from(ts0, n0, cands[k]) {
                let i = choose|i: int| n0 <= i < ts0.len() && (#[trigger] ts0[i]).list@ == cands[k];
                assert(ts1[i] == ts0[i]);
            }
        } else {
            assert(cands.push(t.list@)[k] == t.list@);
            if ts1.len() > ts0.len() {
                assert(ts1 == ts0.push(t));
                assert(ts1[ts0.len() as int] == t);
            } else if fails(cs, &t) {
                assert(refused(cs, t.list@));
            } else {
                assert(filter && held_below(tr0, tr0.len() as int, t.list@));
            }
        }
    }
    if filter {
        assert forall|k: int| 0 <= k < cands.push(t.list@).len() implies (#[trigger] tr1[t0 + k]).list@ == cands.push(t.list@)[k] by {
            if k < kn {
                assert(cands.push(t.list@)[k] == cands[k]);
            }
        }
    }
    assert(0 <= n0 <= ts1.len());
    assert(0 <= t0);
    assert(!filter ==> tr1.len() == t0);
    assert(filter ==> tr1.len() == t0 + cands.push(t.list@).len());
}

/// Whether one of the first `m` states is held does not depend on what comes after them.
proof fn lemma_held_prefix(a: Seq<State>, b: Seq<State>, m: int, l: Seq<(String, i64)>)
    requires
        0 <= m <= a.len(),
        m <= b.len(),
        forall|i: int| 0 <= i < m ==> a[i] == b[i],
    ensures
        held_below(a, m, l) == held_below(b, m, l),
{
    if held_below(a, m, l) {
        let i = choose|i: int| 0 <= i < m && #[trigger] entries(&a[i]) == list_entries(l);
        assert(entries(&b[i]) == list_entries(l));
    }
    if held_below(b, m, l) {
        let i = choose|i: int| 0 <= i < m && #[trigger] entries(&b[i]) == list_entries(l);
        assert(entries(&a[i]) == list_entries(l));
    }
}

/// How far the objective value `v` is from the best value an `i64` can hold, in the direction
/// the set improves it.
pub open spec fn room_left(should_maximize: bool, v: i64) -> int {
    if should_maximize {
        i64::MAX - v
    } else {
        v - i64::MIN
    }
}

/// `v` is at least as good as `w` for the set's direction.
pub open spec fn no_worse(should_maximize: bool, v: i64, w: i64) -> bool {
    if should_maximize {
        v >= w
    } else {
        v <= w
    }
}

/// `v` is strictly better than `w` for the set's direction.
pub open spec fn strictly_better(should_maximize: bool, v: i64, w: i64) -> bool {
    if should_maximize {
        v > w
    } else {
        v < w
    }
}

/// The lists of the states that raise, then lower, the value at position `a` of `l` by one,
/// leaving out one that would leave the range of `i64`.
pub open spec fn steps_at(l: Seq<(String, i64)>, a: int) -> Seq<Seq<(String, i64)>> {
    step_of(l, a, true) + step_of(l, a, false)
}

/// The lists of the states that raise, then lower, the value at the last position of `s` by
/// one (none when `s` is empty).
pub open spec fn last_steps(s: &State) -> Seq<Seq<(String, i64)>> {
    if s.list@.len() == 0 {
        Seq::empty()
    } else {
        steps_at(s.list@, s.list@.len() - 1)
    }
}

/// Every state with the list `l` meets every constraint, whatever its measures give, and its
/// objective is strictly better than that of `start`, whatever either measure gives.
pub open spec fn sure_improvement<G: Fn(&State) -> i64, F: Fn(&State) -> i64>(
    cs: &ConstraintSet<G, F>,
    start: &State,
    l: Seq<(String, i64)>,
) -> bool {
    forall|t: State|
        #![trigger fails(cs, &t)]
        t.list@ == l ==> !fails(cs, &t) && forall|v0: i64, v: i64|
            #![trigger call_ensures(cs.maximize, (start,), v0), call_ensures(cs.maximize, (&t,), v)]
            call_ensures(cs.maximize, (start,), v0) && call_ensures(cs.maximize, (&t,), v) ==> strictly_better(
                cs.should_maximize,
                v,
                v0,
            )
}

/// Raising or lowering the value at the last position of `start` surely improves on it.
pub open spec fn improvable_at_last<G: Fn(&State) -> i64, F: Fn(&State) -> i64>(
    cs: &ConstraintSet<G, F>,
    start: &State,
) -> bool {
    exists|m: int| 0 <= m < last_steps(start).len() && sure_improvement(cs, start, #[trigger] last_steps(start)[m])
}

/// `t` misses a constraint, or its objective can come out strictly worse than `w`.
pub open spec fn ruled_out<G: Fn(&State) -> i64, F: Fn(&State) -> i64>(
    cs: &ConstraintSet<G, F>,
    t: &State,
    w: i64,
) -> bool {
    fails(cs, t) || exists|v: i64| #[trigger] call_ensures(cs.maximize, (t,), v) && strictly_better(cs.should_maximize, w, v)
}

/// No state that changes one value of `r` by one does better than the objective value `w`:
/// for each such list some state with it was measured and missed a constraint, or had an
/// objective strictly worse than `w`.
pub open spec fn locally_best<G: Fn(&State) -> i64, F: Fn(&State) -> i64>(
    cs: &ConstraintSet<G, F>,
    r: &State,
    w: i64,
) -> bool {
    forall|a: int, k: int|
        0 <= a < r.list@.len() && 0 <= k < steps_at(r.list@, a).len() ==> #[trigger] step_ruled_out(cs, r, a, k, w)
}

/// Some state with the list that changes value `a` of `r` as the `k`-th of its one-steps is
/// ruled out against `w`.
pub open spec fn step_ruled_out<G: Fn(&State) -> i64, F: Fn(&State) -> i64>(
    cs: &ConstraintSet<G, F>,
    r: &State,
    a: int,
    k: int,
    w: i64,
) -> bool {
    exists|t: State| t.list@ == steps_at(r.list@, a)[k] && #[trigger] ruled_out(cs, &t, w)
}

/// Some state of `stack` has the list `l`.
pub open spec fn on_stack(stack: Seq<State>, l: Seq<(String, i64)>) -> bool {
    exists|i: int| 0 <= i < stack.len() && (#[trigger] stack[i]).list@ == l
}

/// `t` was measured and missed a constraint, or had an objective no better than `w`.
pub open spec fn no_gain<G: Fn(&State) -> i64, F: Fn(&State) -> i64>(
    cs: &ConstraintSet<G, F>,
    t: &State,
    w: i64,
) -> bool {
    fails(cs, t) || exists|v: i64| #[trigger] call_ensures(cs.maximize, (t,), v) && no_worse(cs.should_maximize, w, v)
}

/// How many candidates one round of the climb can examine for a state of `n` values: for each
/// position, at most two single steps and twice `2 * n` double steps.
pub open spec fn round_cap(n: int) -> int {
    n * (4 * n + 2)
}

/// `t` has the names of `c` and moves one or two of its values, and no other, by one.
pub open spec fn unit_moved(c: Seq<(String, i64)>, t: Seq<(String, i64)>) -> bool {
    &&& t.len() == c.len()
    &&& forall|k: int|
        0 <= k < c.len() ==> #[trigger] t[k].0 == c[k].0 && (t[k].1 == c[k].1 || t[k].1 == c[k].1 + 1 || t[k].1
            == c[k].1 - 1)
    &&& exists|k: int| 0 <= k < c.len() && #[trigger] t[k].1 != c[k].1
    &&& exists|i: int, j: int| #[trigger] moved_only_at(c, t, i, j)
}

/// `t` has the values of `c` at every position other than `i` and `j`.
pub open spec fn moved_only_at(c: Seq<(String, i64)>, t: Seq<(String, i64)>, i: int, j: int) -> bool {
    forall|k: int| 0 <= k < c.len() && k != i && k != j ==> #[trigger] t[k].1 == c[k].1
}

/// `t` is `l` with the value at one position other than `a` moved by one.
spec fn moved_beside(l: Seq<(String, i64)>, a: int, t: Seq<(String, i64)>) -> bool {
    exists|b: int, up: bool|
        0 <= b < l.len() && b != a && #[trigger] step_of(l, b, up).len() == 1 && t == step_of(l, b, up)[0]
}

/// Two states with the names of `start`, one a unit move of the other, both have the objective
/// value `w`: the climb can move on a level.
pub open spec fn level_move<G: Fn(&State) -> i64, F: Fn(&State) -> i64>(
    cs: &ConstraintSet<G, F>,
    start: &State,
    w: i64,
) -> bool {
    exists|c: State, t: State|
        #![trigger call_ensures(cs.maximize, (&c,), w), call_ensures(cs.maximize, (&t,), w)]
        same_names(&c, start) && same_names(&t, start) && unit_moved(c.list@, t.list@) && call_ensures(
            cs.maximize,
            (&c,),
            w,
        ) && call_ensures(cs.maximize, (&t,), w)
}

/// `misses` are more than a hundred candidates, with the names of `start`, examined in a row
/// without any of them improving on the objective value `w`; and either one round could have
/// examined them all, or the climb moved on a level of value `w` on the way.
pub open spec fn missed_in_a_row<G: Fn(&State) -> i64, F: Fn(&State) -> i64>(
    cs: &ConstraintSet<G, F>,
    start: &State,
    misses: Seq<State>,
    w: i64,
) -> bool {
    &&& misses.len() > 100
    &&& forall|i: int| 0 <= i < misses.len() ==> same_names(&#[trigger] misses[i], start) && no_gain(cs, &misses[i], w)
    &&& misses.len() <= round_cap(start.list@.len() as int) || level_move(cs, start, w)
}

/// The last `ls.len()` states of `stack` have the lists `ls`, in order.
pub open spec fn ends_with_lists(stack: Seq<State>, ls: Seq<Seq<(String, i64)>>) -> bool {
    ls.len() <= stack.len() && forall|m: int|
        0 <= m < ls.len() ==> (#[trigger] stack[stack.len() - ls.len() + m]).list@ == ls[m]
}

/// The state with the value at `idx` one higher (`up`) or one lower, or nothing when that
/// value would leave the range of `i64`.
fn bumped(s: &State, idx: usize, up: bool) -> (r: Option<State>)
    requires
        idx < s.list@.len(),
    ensures
        match r {
            Some(t) => (if up { s.list@[idx as int].1 < i64::MAX } else { s.list@[idx as int].1 > i64::MIN })
                && same_names(&t, s) && t.list@ == s.list@.update(
                idx as int,
                (s.list@[idx as int].0, (if up { s.list@[idx as int].1 + 1 } else { s.list@[idx as int].1 - 1 }) as i64),
            ),
            None => if up { s.list@[idx as int].1 == i64::MAX } else { s.list@[idx as int].1 == i64::MIN },
        },
{
    let v = s.list[idx].1;
    let nv = if up {
        if v == i64::MAX {
            return None;
        }
        v + 1
    } else {
        if v == i64::MIN {
            return None;
        }
        v - 1
    };
    let mut t = s.copy();
    let name = t.list[idx].0.clone();
    t.list.set(idx, (name, nv));
    Some(t)
}

/// Whether the two states hold the same names and values in the same order.
fn same_state(a: &State, b: &State) -> (r: bool)
    ensures
        r == (entries(a) == entries(b)),
{
    if a.list.len() != b.list.len() {
        proof {
            assert(entries(a).len() != entries(b).len());
        }
        return false;
    }
    let mut i: usize = 0;
    while i < a.list.len()
        invariant
            a.list@.len() == b.list@.len(),
            i <= a.list@.len(),
            forall|k: int| 0 <= k < i ==> #[trigger] entries(a)[k] == entries(b)[k],
        decreases a.list@.len() - i,
    {
        if a.list[i].0 != b.list[i].0 || a.list[i].1 != b.list[i].1 {
            proof {
                assert(entries(a)[i as int] != entries(b)[i as int]);
            }
            return false;
        }
        i = i + 1;
    }
    proof {
        assert(entries(a) =~= entries(b));
    }
    true
}

/// Whether `list` holds a state with the same names and values as `s`.
fn holds_state(list: &Vec<State>, s: &State) -> (r: bool)
    ensures
        r == exists|k: int| 0 <= k < list@.len() && entries(&#[trigger] list@[k]) == entries(s),
{
    let mut k: usize = 0;
    while k < list.len()
        invariant
            k <= list@.len(),
            forall|m: int| 0 <= m < k ==> entries(&#[trigger] list@[m]) != entries(s),
        decreases list@.len() - k,
    {
        if same_state(&list[k], s) {
            return true;
        }
        k = k + 1;
    }
    false
}

/// `s1` is `l` with the value at `a` moved by one.
spec fn moved_at(l: Seq<(String, i64)>, a: int, s1: Seq<(String, i64)>) -> bool {
    &&& 0 <= a < l.len()
    &&& s1.len() == l.len()
    &&& s1[a].0 == l[a].0
    &&& (s1[a].1 == l[a].1 + 1 || s1[a].1 == l[a].1 - 1)
    &&& forall|k: int| 0 <= k < l.len() && k != a ==> #[trigger] s1[k] == l[k]
}

/// One step at `a` is a unit move.
proof fn lemma_one_move(l: Seq<(String, i64)>, a: int, s1: Seq<(String, i64)>)
    requires
        moved_at(l, a, s1),
    ensures
        unit_moved(l, s1),
{
    assert(moved_only_at(l, s1, a, a));
    assert(s1[a].1 != l[a].1);
    assert forall|k: int| 0 <= k < l.len() implies #[trigger] s1[k].0 == l[k].0 && (s1[k].1 == l[k].1 || s1[k].1
        == l[k].1 + 1 || s1[k].1 == l[k].1 - 1) by {
        if k != a {
            assert(s1[k] == l[k]);
        }
    }
}

/// A step at `a` followed by a step at another position is a unit move.
proof fn lemma_two_moves(l: Seq<(String, i64)>, a: int, s1: Seq<(String, i64)>, t: Seq<(String, i64)>)
    requires
        moved_at(l, a, s1),
        moved_beside(s1, a, t),
    ensures
        unit_moved(l, t),
{
    let (b, up) = choose|b: int, up: bool|
        0 <= b < s1.len() && b != a && #[trigger] step_of(s1, b, up).len() == 1 && t == step_of(s1, b, up)[0];
    assert(moved_only_at(l, t, a, b)) by {
        assert forall|k: int| 0 <= k < l.len() && k != a && k != b implies #[trigger] t[k].1 == l[k].1 by {
            assert(s1[k] == l[k]);
        }
    }
    assert(t[a].1 != l[a].1);
    assert forall|k: int| 0 <= k < l.len() implies #[trigger] t[k].0 == l[k].0 && (t[k].1 == l[k].1 || t[k].1
        == l[k].1 + 1 || t[k].1 == l[k].1 - 1) by {
        if k != a {
            assert(s1[k] == l[k]);
        }
    }
}

impl<G: Fn(&State) -> i64, F: Fn(&State) -> i64> ConstraintSet<G, F> {
    /// Pushes `t` onto `try_stack` when it meets every constraint and, with `filter` set, no
    /// state of `tried` has its names and values; with `filter` set, records `t` as tried.
    fn push_candidate(
        &self,
        t: State,
        filter: bool,
        try_stack: &mut Vec<State>,
        tried: &mut Vec<State>,
    )
        requires
            measurable(self, &t),
        ensures
            !filter ==> final(tried)@ == old(tried)@,
            filter ==> final(tried)@.len() == old(tried)@.len() + 1 && final(tried)@.drop_last()
                == old(tried)@ && final(tried)@.last().list@ == t.list@,
            final(try_stack)@ == old(try_stack)@ || final(try_stack)@ == old(try_stack)@.push(t),
            final(try_stack)@.len() > old(try_stack)@.len() ==> passes(self, &t) && !(filter
                && held_below(old(tried)@, old(tried)@.len() as int, t.list@)),
            final(try_stack)@.len() == old(try_stack)@.len() ==> fails(self, &t) || (filter
                && held_below(old(tried)@, old(tried)@.len() as int, t.list@)),
    {
        let ghost before = tried@;
        if filter {
            let c = t.copy();
            if self.is_valid(&t) {
                if holds_state(tried, &t) {
                    proof {
                        let k = choose|k: int|
                            0 <= k < before.len() && entries(&#[trigger] before[k]) == entries(&t);
                        assert(held_below(before, before.len() as int, t.list@));
                    }
                } else {
                    try_stack.push(t);
                }
            }
            tried.push(c);
            proof {
                assert(tried@.drop_last() =~= before);
            }
        } else if self.is_valid(&t) {
            try_stack.push(t);
        }
    }

    /// Pushes the neighbours of `s1` that change the value at any other position than `a` by
    /// one, position by position, first the one raised, then the one lowered: all valid ones,
    /// or, when `filter` is set, the valid ones not yet tried; with `filter` set every
    /// neighbour is recorded as tried.
    fn push_neighbours(
        &self,
        s1: &State,
        a: usize,
        filter: bool,
        try_stack: &mut Vec<State>,
        tried: &mut Vec<State>,
        Ghost(start): Ghost<State>,
    )
        requires
            forall|s: State| same_names(&s, &start) ==> #[trigger] measurable(self, &s),
            same_names(s1, &start),
            forall|k: int| 0 <= k < old(try_stack)@.len() ==> same_names(&#[trigger] old(try_stack)@[k], &start),
        ensures
            forall|k: int| 0 <= k < final(try_stack)@.len() ==> same_names(&#[trigger] final(try_stack)@[k], &start),
            final(try_stack)@.len() >= old(try_stack)@.len(),
            forall|k: int| 0 <= k < old(try_stack)@.len() ==> #[trigger] final(try_stack)@[k] == old(try_stack)@[k],
            forall|k: int| 0 <= k < old(tried)@.len() ==> #[trigger] final(tried)@[k] == old(tried)@[k],
            offered(
                self,
                filter,
                final(try_stack)@,
                old(try_stack)@.len() as int,
                final(tried)@,
                old(tried)@.len() as int,
                neighbours(s1, a as int),
            ),
            final(try_stack)@.len() <= old(try_stack)@.len() + 2 * s1.list@.len(),
            forall|k: int|
                old(try_stack)@.len() <= k < final(try_stack)@.len() ==> moved_beside(
                    s1.list@,
                    a as int,
                    #[trigger] final(try_stack)@[k].list@,
                ),
    {
        let ghost n0 = try_stack@.len() as int;
        let ghost t0 = tried@.len() as int;
        let ghost ts_old = try_stack@;
        let ghost tr_old = tried@;
        let ghost l = s1.list@;
        let ghost mut cands: Seq<Seq<(String, i64)>> = Seq::empty();
        let n = s1.list.len();
        let mut b: usize = 0;
        while b < n
            invariant
                n == s1.list@.len(),
                l == s1.list@,
                b <= n,
                forall|s: State| same_names(&s, &start) ==> #[trigger] measurable(self, &s),
                same_names(s1, &start),
                forall|k: int| 0 <= k < try_stack@.len() ==> same_names(&#[trigger] try_stack@[k], &start),
                cands == neighbours_below(l, a as int, b as nat),
                offered(self, filter, try_stack@, n0, tried@, t0, cands),
                n0 == ts_old.len(),
                t0 == tr_old.len(),
                forall|k: int| 0 <= k < n0 ==> #[trigger] try_stack@[k] == ts_old[k],
                forall|k: int| 0 <= k < t0 ==> #[trigger] tried@[k] == tr_old[k],
                try_stack@.len() <= n0 + 2 * b,
                forall|k: int| n0 <= k < try_stack@.len() ==> moved_beside(l, a as int, #[trigger] try_stack@[k].list@),
            decreases n - b,
        {
            let ghost prev = cands;
            if b != a {
                let up = bumped(s1, b, true);
                let down = bumped(s1, b, false);
                match up {
                    Some(s3) => {
                        assert(measurable(self, &s3));
                        let ghost ts0 = try_stack@;
                        let ghost tr0 = tried@;
                        let ghost t3 = s3;
                        self.push_candidate(s3, filter, try_stack, tried);
                        proof {
                            lemma_offer_one(self, filter, ts0, try_stack@, n0, tr0, tried@, t0, cands, t3);
                            cands = cands.push(t3.list@);
                            assert(step_of(l, b as int, true).len() == 1 && t3.list@ == step_of(l, b as int, true)[0]);
                            assert(moved_beside(l, a as int, t3.list@));
                            assert forall|k: int| n0 <= k < try_stack@.len() implies moved_beside(l, a as int, #[trigger] try_stack@[k].list@) by {
                                if k < ts0.len() {
                                    assert(try_stack@[k] == ts0[k]);
                                } else {
                                    assert(try_stack@[k] == t3);
                                }
                            }
                        }
                    },
                    None => {},
                }
                let ghost mid = cands;
                match down {
                    Some(s4) => {
                        assert(measurable(self, &s4));
                        let ghost ts0 = try_stack@;
                        let ghost tr0 = tried@;
                        let ghost t4 = s4;
                        self.push_candidate(s4, filter, try_stack, tried);
                        proof {
                            lemma_offer_one(self, filter, ts0, try_stack@, n0, tr0, tried@, t0, cands, t4);
                            cands = cands.push(t4.list@);
                            assert(step_of(l, b as int, false).len() == 1 && t4.list@ == step_of(l, b as int, false)[0]);
                            assert(moved_beside(l, a as int, t4.list@));
                            assert forall|k: int| n0 <= k < try_stack@.len() implies moved_beside(l, a as int, #[trigger] try_stack@[k].list@) by {
                                if k < ts0.len() {
                                    assert(try_stack@[k] == ts0[k]);
                                } else {
                                    assert(try_stack@[k] == t4);
                                }
                            }
                        }
                    },
                    None => {},
                }
                proof {
                    assert(mid =~= prev + step_of(l, b as int, true));
                    assert(cands =~= prev + step_of(l, b as int, true) + step_of(l, b as int, false));
                }
            }
            b = b + 1;
        }
    }

    /// Climbs from `start` one step at a time towards a better objective: each round it
    /// gathers the states that change one value by one, and those that change one value by
    /// one and another by one (keeping the valid ones), and walks through them, moving to every
    /// valid one that is no worse than the best value seen; it stops after a round that found
    /// nothing, or once more than a hundred candidates in a row did not improve the objective.
    /// The result is `start` or a valid state, with the same names as `start`, and its
    /// objective is no worse than that of `start`.
    pub fn solve(&self, start: State) -> (r: State)
        requires
            forall|s: State| same_names(&s, &start) ==> #[trigger] measurable(self, &s),
        ensures
            same_names(&r, &start),
            r == start || passes(self, &r),
            exists|v0: i64, v1: i64|
                #![trigger call_ensures(self.maximize, (&start,), v0), call_ensures(self.maximize, (&r,), v1)]
                call_ensures(self.maximize, (&start,), v0) && call_ensures(self.maximize, (&r,), v1)
                    && no_worse(self.should_maximize, v1, v0),
            improvable_at_last(self, &start) ==> exists|v0: i64, v1: i64|
                #![trigger call_ensures(self.maximize, (&start,), v0), call_ensures(self.maximize, (&r,), v1)]
                call_ensures(self.maximize, (&start,), v0) && call_ensures(self.maximize, (&r,), v1)
                    && strictly_better(self.should_maximize, v1, v0),
            exists|w: i64|
                #[trigger] call_ensures(self.maximize, (&r,), w) && (locally_best(self, &r, w) || exists|
                    misses: Seq<State>,
                | #[trigger] missed_in_a_row(self, &start, misses, w)),
    {
        let (r, gave_up) = self.climb(start);
        r
    }

    /// Does what `solve` does, and also tells whether the climb ended because more than a
    /// hundred candidates in a row did not improve the objective (`true`) or because a round
    /// found nothing (`false`); in the latter case no state that changes one value of the
    /// result by one does better than it.
    pub fn climb(&self, start: State) -> (r: (State, bool))
        requires
            forall|s: State| same_names(&s, &start) ==> #[trigger] measurable(self, &s),
        ensures
            same_names(&r.0, &start),
            r.0 == start || passes(self, &r.0),
            exists|v0: i64, v1: i64|
                #![trigger call_ensures(self.maximize, (&start,), v0), call_ensures(self.maximize, (&r.0,), v1)]
                call_ensures(self.maximize, (&start,), v0) && call_ensures(self.maximize, (&r.0,), v1)
                    && no_worse(self.should_maximize, v1, v0),
            improvable_at_last(self, &start) ==> exists|v0: i64, v1: i64|
                #![trigger call_ensures(self.maximize, (&start,), v0), call_ensures(self.maximize, (&r.0,), v1)]
                call_ensures(self.maximize, (&start,), v0) && call_ensures(self.maximize, (&r.0,), v1)
                    && strictly_better(self.should_maximize, v1, v0),
            !r.1 ==> exists|w: i64| #[trigger] call_ensures(self.maximize, (&r.0,), w) && locally_best(self, &r.0, w),
            r.1 ==> exists|w: i64, misses: Seq<State>|
                call_ensures(self.maximize, (&r.0,), w) && #[trigger] missed_in_a_row(self, &start, misses, w),
    {
        let ghost first = start;
        let mut state = start;
        assert(measurable(self, &state));
        let mut max_eval = (self.maximize)(&state);
        let ghost v0 = max_eval;
        let mut try_stack: Vec<State> = Vec::new();
        let mut tried: Vec<State> = Vec::new();
        tried.push(state.copy());
        let mut failed_count: u32 = 0;
        let mut go = true;
        let mut gave_up = false;
        let ghost mut first_round = true;
        let ghost mut streak: Seq<State> = Seq::empty();
        while go
            invariant
                !go && !gave_up ==> locally_best(self, &state, max_eval),
                !go && gave_up ==> streak.len() > 100 && (streak.len() <= round_cap(first.list@.len() as int)
                    || level_move(self, &first, max_eval)),
                go && failed_count > 0 ==> level_move(self, &first, max_eval),
                go ==> try_stack@.len() == 0,
                streak.len() == failed_count,
                forall|i: int|
                    0 <= i < streak.len() ==> same_names(&#[trigger] streak[i], &first) && no_gain(self, &streak[i], max_eval),
                first_round ==> go && state == first && try_stack@.len() == 0 && failed_count == 0,
                !first_round && improvable_at_last(self, &first) ==> strictly_better(self.should_maximize, max_eval, v0),
                forall|s: State| same_names(&s, &first) ==> #[trigger] measurable(self, &s),
                same_names(&state, &first),
                state == first || passes(self, &state),
                call_ensures(self.maximize, (&first,), v0),
                call_ensures(self.maximize, (&state,), max_eval),
                no_worse(self.should_maximize, max_eval, v0),
                forall|k: int| 0 <= k < try_stack@.len() ==> same_names(&#[trigger] try_stack@[k], &first),
                failed_count <= 101,
                go ==> failed_count <= 100,
            decreases room_left(self.should_maximize, max_eval), 101 - failed_count, (if go {
                1int
            } else {
                0int
            }),
        {
            let n = state.list.len();
            let mut a: usize = 0;
            while a < n
                invariant
                    n == state.list@.len(),
                    a <= n,
                    forall|s: State| same_names(&s, &first) ==> #[trigger] measurable(self, &s),
                    same_names(&state, &first),
                    forall|k: int| 0 <= k < try_stack@.len() ==> same_names(&#[trigger] try_stack@[k], &first),
                    first_round ==> state == first,
                    try_stack@.len() <= a * (4 * n + 2),
                    forall|k: int| 0 <= k < try_stack@.len() ==> unit_moved(state.list@, #[trigger] try_stack@[k].list@),
                    a > 0 ==> ends_with_lists(try_stack@, steps_at(state.list@, a - 1)),
                    forall|b: int, k: int|
                        0 <= b < a && 0 <= k < steps_at(state.list@, b).len() ==> on_stack(
                            try_stack@,
                            #[trigger] steps_at(state.list@, b)[k],
                        ),
                decreases n - a,
            {
                let ghost stack_in = try_stack@;
                let s1 = bumped(&state, a, true);
                let s2 = bumped(&state, a, false);
                match &s1 {
                    Some(s1) => {
                        let ghost pre = try_stack@;
                        self.push_neighbours(s1, a, false, &mut try_stack, &mut tried, Ghost(first));
                        proof {
                            assert(moved_at(state.list@, a as int, s1.list@));
                            assert forall|k: int| 0 <= k < try_stack@.len() implies unit_moved(state.list@, #[trigger] try_stack@[k].list@) by {
                                if k < pre.len() {
                                    assert(try_stack@[k] == pre[k]);
                                } else {
                                    lemma_two_moves(state.list@, a as int, s1.list@, try_stack@[k].list@);
                                }
                            }
                        }
                    },
                    None => {},
                }
                match &s2 {
                    Some(s2) => {
                        let ghost pre = try_stack@;
                        self.push_neighbours(s2, a, true, &mut try_stack, &mut tried, Ghost(first));
                        proof {
                            assert(moved_at(state.list@, a as int, s2.list@));
                            assert forall|k: int| 0 <= k < try_stack@.len() implies unit_moved(state.list@, #[trigger] try_stack@[k].list@) by {
                                if k < pre.len() {
                                    assert(try_stack@[k] == pre[k]);
                                } else {
                                    lemma_two_moves(state.list@, a as int, s2.list@, try_stack@[k].list@);
                                }
                            }
                        }
                    },
                    None => {},
                }
                let ghost before_up = try_stack@;
                match s1 {
                    Some(s1) => {
                        proof {
                            lemma_one_move(state.list@, a as int, s1.list@);
                        }
                        try_stack.push(s1);
                    },
                    None => {},
                }
                let ghost before_down = try_stack@;
                match s2 {
                    Some(s2) => {
                        proof {
                            lemma_one_move(state.list@, a as int, s2.list@);
                        }
                        try_stack.push(s2);
                    },
                    None => {},
                }
                proof {
                    assert forall|k: int| 0 <= k < try_stack@.len() implies unit_moved(state.list@, #[trigger] try_stack@[k].list@) by {
                        if k < before_down.len() {
                            assert(try_stack@[k] == before_down[k]);
                            if k < before_up.len() {
                                assert(before_down[k] == before_up[k]);
                            }
                        }
                    }
                    assert((a + 1) * (4 * n + 2) == a * (4 * n + 2) + (4 * n + 2)) by (nonlinear_arith);
                    let ls = steps_at(state.list@, a as int);
                    assert(try_stack@ =~= before_up + try_stack@.subrange(before_up.len() as int, try_stack@.len() as int));
                    assert(ls.len() == try_stack@.len() - before_up.len());
                    assert forall|m: int| 0 <= m < ls.len() implies (#[trigger] try_stack@[try_stack@.len() - ls.len() + m]).list@ == ls[m] by {
                        if step_of(state.list@, a as int, true).len() == 1 && m == 0 {
                            assert(try_stack@[before_up.len() as int] == before_down.last());
                        }
                    }
                    assert forall|i: int| 0 <= i < stack_in.len() implies #[trigger] try_stack@[i] == stack_in[i] by {
                        assert(before_up[i] == stack_in[i]);
                        assert(try_stack@[i] == before_up[i]);
                    }
                    assert forall|b: int, k: int|
                        0 <= b < a + 1 && 0 <= k < steps_at(state.list@, b).len() implies on_stack(
                            try_stack@,
                            #[trigger] steps_at(state.list@, b)[k],
                        ) by {
                        if b < a {
                            assert(on_stack(stack_in, steps_at(state.list@, b)[k]));
                            let i = choose|i: int| 0 <= i < stack_in.len() && (#[trigger] stack_in[i]).list@ == steps_at(state.list@, b)[k];
                            assert(try_stack@[i] == stack_in[i]);
                        } else {
                            assert(try_stack@[try_stack@.len() - ls.len() + k].list@ == ls[k]);
                        }
                    }
                }
                a = a + 1;
            }
            let ghost eval0 = max_eval;
            let ghost state0 = state;
            let ghost count0 = failed_count;
            let ghost len0 = try_stack@.len();
            let ghost stack0 = try_stack@;
            let ghost tail = if first_round { last_steps(&first) } else { Seq::empty() };
            proof {
                if first_round && first.list@.len() > 0 {
                    assert(ends_with_lists(stack0, tail));
                }
                assert(n == first.list@.len());
            }
            let mut increased = false;
            let mut hit = false;
            let mut stop = false;
            while try_stack.len() > 0 && !stop
                invariant
                    forall|s: State| same_names(&s, &first) ==> #[trigger] measurable(self, &s),
                    same_names(&state, &first),
                    state == first || passes(self, &state),
                    call_ensures(self.maximize, (&first,), v0),
                    call_ensures(self.maximize, (&state,), max_eval),
                    no_worse(self.should_maximize, max_eval, v0),
                    forall|k: int| 0 <= k < try_stack@.len() ==> same_names(&#[trigger] try_stack@[k], &first),
                    try_stack@.len() <= len0,
                    failed_count <= 101,
                    !stop ==> failed_count <= 100,
                    increased ==> room_left(self.should_maximize, max_eval) < room_left(
                        self.should_maximize,
                        eval0,
                    ),
                    !increased ==> max_eval == eval0 && failed_count == count0 + (len0 - try_stack@.len()),
                    hit ==> try_stack@.len() < len0,
                    stop ==> !hit,
                    stop ==> !increased && failed_count > 100,
                    stop ==> streak.len() <= round_cap(first.list@.len() as int) || level_move(self, &first, max_eval),
                    increased ==> failed_count == 0,
                    hit && !increased ==> level_move(self, &first, max_eval),
                    count0 > 0 ==> level_move(self, &first, eval0),
                    len0 <= round_cap(first.list@.len() as int),
                    same_names(&state0, &first),
                    call_ensures(self.maximize, (&state0,), eval0),
                    forall|k: int| 0 <= k < stack0.len() ==> unit_moved(state0.list@, #[trigger] stack0[k].list@),
                    streak.len() == failed_count,
                    forall|i: int|
                        0 <= i < streak.len() ==> same_names(&#[trigger] streak[i], &first) && no_gain(self, &streak[i], max_eval),
                    !hit && !stop ==> state == state0 && max_eval == eval0,
                    n == state0.list@.len(),
                    !hit && !stop ==> forall|b: int, k: int|
                        0 <= b < n && 0 <= k < steps_at(state0.list@, b).len() ==> on_stack(
                            try_stack@,
                            #[trigger] steps_at(state0.list@, b)[k],
                        ) || exists|t: State|
                            t.list@ == steps_at(state0.list@, b)[k] && #[trigger] ruled_out(self, &t, eval0),
                    no_worse(self.should_maximize, max_eval, eval0),
                    forall|k: int| 0 <= k < try_stack@.len() ==> #[trigger] try_stack@[k] == stack0[k],
                    stack0.len() == len0,
                    ends_with_lists(stack0, tail),
                    first_round ==> count0 == 0 && tail == last_steps(&first),
                    !first_round ==> tail.len() == 0,
                    forall|m: int|
                        0 <= m < tail.len() && sure_improvement(self, &first, #[trigger] tail[m])
                            && try_stack@.len() <= len0 - tail.len() + m ==> strictly_better(
                            self.should_maximize,
                            max_eval,
                            v0,
                        ),
                decreases try_stack@.len(), (if stop { 0int } else { 1int }),
            {
                let ghost pos = try_stack@.len() - 1;
                let ghost eval_before = max_eval;
                let ghost st_before = try_stack@;
                let ghost hb = hit;
                let ghost mut rejected = false;
                let x = try_stack.pop().unwrap();
                let ghost xg = x;
                assert(measurable(self, &x));
                assert(x == stack0[pos]);
                let valid = self.is_valid(&x);
                proof {
                    if !valid {
                        rejected = true;
                        assert(ruled_out(self, &xg, max_eval));
                    }
                }
                proof {
                    if pos >= len0 - tail.len() {
                        let m = pos - (len0 - tail.len());
                        assert(stack0[len0 - tail.len() + m].list@ == tail[m]);
                        if sure_improvement(self, &first, tail[m]) {
                            assert(x.list@ == tail[m]);
                            assert(!fails(self, &x));
                        }
                    }
                }
                if valid {
                    let v = (self.maximize)(&x);
                    proof {
                        if pos >= len0 - tail.len() {
                            let m = pos - (len0 - tail.len());
                            if sure_improvement(self, &first, tail[m]) {
                                assert(x.list@ == tail[m]);
                                assert(strictly_better(self.should_maximize, v, v0));
                            }
                        }
                    }
                    let better = if self.should_maximize {
                        v >= max_eval
                    } else {
                        v <= max_eval
                    };
                    if better {
                        if v != max_eval {
                            increased = true;
                        }
                        proof {
                            if !increased {
                                assert(unit_moved(state0.list@, xg.list@));
                                assert(call_ensures(self.maximize, (&state0,), max_eval));
                                assert(call_ensures(self.maximize, (&xg,), max_eval));
                                assert(level_move(self, &first, max_eval));
                            }
                        }
                        max_eval = v;
                        state = x;
                        hit = true;
                    } else {
                        proof {
                            rejected = true;
                            assert(strictly_better(self.should_maximize, max_eval, v));
                            assert(ruled_out(self, &xg, max_eval));
                        }
                    }
                }
                proof {
                    if !increased {
                        assert(max_eval == eval_before);
                        assert(no_gain(self, &xg, max_eval));
                        let s0 = streak;
                        streak = streak.push(xg);
                        assert forall|i: int| 0 <= i < streak.len() implies same_names(&#[trigger] streak[i], &first)
                            && no_gain(self, &streak[i], max_eval) by {
                            if i < s0.len() {
                                assert(streak[i] == s0[i]);
                            }
                        }
                    } else {
                        streak = Seq::empty();
                    }
                }
                if !increased {
                    failed_count += 1;
                    if failed_count > 100 {
                        hit = false;
                        stop = true;
                    }
                } else {
                    failed_count = 0;
                }
                proof {
                    if !hit && !stop {
                        assert(!hb && rejected);
                        assert(max_eval == eval_before && eval_before == eval0);
                        assert(ruled_out(self, &xg, eval0));
                        assert forall|b: int, k: int|
                            0 <= b < n && 0 <= k < steps_at(state0.list@, b).len() implies on_stack(
                                try_stack@,
                                #[trigger] steps_at(state0.list@, b)[k],
                            ) || exists|t: State|
                                t.list@ == steps_at(state0.list@, b)[k] && #[trigger] ruled_out(self, &t, eval0) by {
                            if on_stack(st_before, steps_at(state0.list@, b)[k]) {
                                let i = choose|i: int|
                                    0 <= i < st_before.len() && (#[trigger] st_before[i]).list@ == steps_at(state0.list@, b)[k];
                                if i < pos {
                                    assert(try_stack@[i] == st_before[i]);
                                } else {
                                    assert(xg == st_before[i]);
                                }
                            }
                        }
                    }
                }
            }
            proof {
                if !stop && !hit {
                    assert(locally_best(self, &state, max_eval)) by {
                        assert forall|a: int, k: int|
                            0 <= a < state.list@.len() && 0 <= k < steps_at(state.list@, a).len() implies #[trigger] step_ruled_out(
                                self,
                                &state,
                                a,
                                k,
                                max_eval,
                            ) by {
                            assert(!on_stack(try_stack@, steps_at(state0.list@, a)[k]));
                            assert(exists|t: State|
                                t.list@ == steps_at(state0.list@, a)[k] && #[trigger] ruled_out(self, &t, eval0));
                        }
                    }
                }
                if first_round {
                    assert forall|m: int|
                        0 <= m < last_steps(&first).len() && sure_improvement(self, &first, #[trigger] last_steps(&first)[m])
                            implies strictly_better(self.should_maximize, max_eval, v0) by {
                        assert(tail[m] == last_steps(&first)[m]);
                        assert(try_stack@.len() <= len0 - tail.len() + m);
                    }
                }
                first_round = false;
            }
            if !hit {
                go = false;
                gave_up = stop;
            }
        }
        let ghost last = max_eval;
        let r = (state, gave_up);
        proof {
            assert(call_ensures(self.maximize, (&r.0,), last));
            if gave_up {
                assert(missed_in_a_row(self, &first, streak, last));
            }
        }
        r
    }
}


/// The largest absolute threshold among the first `n` constraints of `cs`, or 0 when there
/// are none.
pub open spec fn widest_threshold<G, F>(cs: &ConstraintSet<G, F>, n: nat) -> int
    decreases n,
{
    if n == 0 {
        0
    } else {
        let prev = widest_threshold(cs, (n - 1) as nat);
        let t = cs.constraints@[n - 1].threshold;
        let a = if t < 0 {
            -t
        } else {
            t as int
        };
        if a > prev {
            a
        } else {
            prev
        }
    }
}

/// The entries of each state, in order.
pub open spec fn all_entries(ss: Seq<State>) -> Seq<Seq<(Seq<char>, i64)>> {
    ss.map_values(|s: State| entries(&s))
}

/// The entries one search step of size `step` away from `e`: for each position in order, its
/// value raised by `step`, then lowered by `step`.
pub open spec fn search_moves(e: Seq<(Seq<char>, i64)>, step: i64) -> Seq<Seq<(Seq<char>, i64)>> {
    Seq::new(
        2 * e.len(),
        |i: int|
            {
                let k = i / 2;
                let v = if i % 2 == 0 {
                    e[k].1 + step
                } else {
                    e[k].1 - step
                };
                e.update(k, (e[k].0, v as i64))
            },
    )
}

/// The moves that are neither in `seen` nor equal to an earlier move, in order.
pub open spec fn unseen(
    seen: Seq<Seq<(Seq<char>, i64)>>,
    moves: Seq<Seq<(Seq<char>, i64)>>,
) -> Seq<Seq<(Seq<char>, i64)>>
    decreases moves.len(),
{
    if moves.len() == 0 {
        Seq::empty()
    } else {
        let prev = unseen(seen, moves.drop_last());
        if seen.contains(moves.last()) || prev.contains(moves.last()) {
            prev
        } else {
            prev.push(moves.last())
        }
    }
}

/// An element of a concatenation is an element of one of its parts.
proof fn lemma_concat_contains<A>(a: Seq<A>, b: Seq<A>, x: A)
    ensures
        (a + b).contains(x) <==> a.contains(x) || b.contains(x),
{
    if (a + b).contains(x) {
        let i = choose|i: int| 0 <= i < (a + b).len() && (a + b)[i] == x;
        if i < a.len() {
            assert(a[i] == x);
        } else {
            assert(b[i - a.len()] == x);
        }
    }
    if a.contains(x) {
        let i = choose|i: int| 0 <= i < a.len() && a[i] == x;
        assert((a + b)[i] == x);
    }
    if b.contains(x) {
        let i = choose|i: int| 0 <= i < b.len() && b[i] == x;
        assert((a + b)[a.len() + i] == x);
    }
}

/// The state with the value at `idx` moved by `step`: raised (`up`) or lowered.
fn shifted(s: &State, idx: usize, step: i64, up: bool) -> (r: State)
    requires
        idx < s.list@.len(),
        i64::MIN <= s.list@[idx as int].1 + step <= i64::MAX,
        i64::MIN <= s.list@[idx as int].1 - step <= i64::MAX,
    ensures
        r.list@ == s.list@.update(
            idx as int,
            (s.list@[idx as int].0, (if up { s.list@[idx as int].1 + step } else { s.list@[idx as int].1 - step }) as i64),
        ),
{
    let v = s.list[idx].1;
    let nv = if up {
        v + step
    } else {
        v - step
    };
    let mut t = s.copy();
    let name = t.list[idx].0.clone();
    t.list.set(idx, (name, nv));
    t
}

/// Pushes `t` onto `stack` and records it in `tried`, unless `tried` already holds its names
/// and values.
fn offer_untried(t: State, tried: &mut Vec<State>, stack: &mut Vec<State>)
    ensures
        all_entries(old(tried)@).contains(entries(&t)) ==> final(tried)@ == old(tried)@ && final(stack)@
            == old(stack)@,
        !all_entries(old(tried)@).contains(entries(&t)) ==> final(tried)@.len() == old(tried)@.len() + 1
            && final(tried)@.drop_last() == old(tried)@ && entries(&final(tried)@.last()) == entries(&t)
            && final(stack)@.len() == old(stack)@.len() + 1 && final(stack)@.drop_last() == old(stack)@
            && entries(&final(stack)@.last()) == entries(&t),
{
    let ghost before = tried@;
    if holds_state(tried, &t) {
        proof {
            let k = choose|k: int| 0 <= k < before.len() && entries(&#[trigger] before[k]) == entries(&t);
            assert(all_entries(before)[k] == entries(&t));
        }
        return;
    }
    proof {
        if all_entries(before).contains(entries(&t)) {
            let k = choose|k: int| 0 <= k < all_entries(before).len() && all_entries(before)[k] == entries(&t);
            assert(entries(&before[k]) == entries(&t));
        }
    }
    let c = t.copy();
    tried.push(c);
    stack.push(t);
    proof {
        assert(tried@.drop_last() =~= before);
    }
}

/// The state that moves the value at `k` of `x` by `step` has the entries of the matching
/// search move.
proof fn lemma_move_entries(x: &State, k: int, step: i64, up: bool, t: &State)
    requires
        0 <= k < x.list@.len(),
        t.list@ == x.list@.update(
            k,
            (x.list@[k].0, (if up { x.list@[k].1 + step } else { x.list@[k].1 - step }) as i64),
        ),
    ensures
        entries(t) == search_moves(entries(x), step)[if up { 2 * k } else { 2 * k + 1 }],
{
    let i = if up {
        2 * k
    } else {
        2 * k + 1
    };
    assert(i / 2 == k);
    assert(up <==> i % 2 == 0);
    assert(entries(t) =~= search_moves(entries(x), step)[i]);
}

/// Offering move `j` the way `offer_untried` does, with `tried` holding `seen` and the moves
/// kept so far and `stack` holding `base` and the same moves, keeps both that way for the
/// moves up to `j`.
proof fn lemma_offer_step(
    seen: Seq<Seq<(Seq<char>, i64)>>,
    base: Seq<Seq<(Seq<char>, i64)>>,
    moves: Seq<Seq<(Seq<char>, i64)>>,
    j: int,
    tr0: Seq<State>,
    tr1: Seq<State>,
    st0: Seq<State>,
    st1: Seq<State>,
    t: State,
)
    requires
        0 <= j < moves.len(),
        entries(&t) == moves[j],
        all_entries(tr0) == seen + unseen(seen, moves.take(j)),
        all_entries(st0) == base + unseen(seen, moves.take(j)),
        all_entries(tr0).contains(entries(&t)) ==> tr1 == tr0 && st1 == st0,
        !all_entries(tr0).contains(entries(&t)) ==> tr1.len() == tr0.len() + 1 && tr1.drop_last() == tr0
            && entries(&tr1.last()) == entries(&t) && st1.len() == st0.len() + 1 && st1.drop_last() == st0
            && entries(&st1.last()) == entries(&t),
    ensures
        all_entries(tr1) == seen + unseen(seen, moves.take(j + 1)),
        all_entries(st1) == base + unseen(seen, moves.take(j + 1)),
        tr1.len() >= tr0.len(),
        st1.len() >= st0.len(),
        forall|i: int| 0 <= i < tr0.len() ==> #[trigger] tr1[i] == tr0[i],
        forall|i: int| 0 <= i < st0.len() ==> #[trigger] st1[i] == st0[i],
{
    let u = unseen(seen, moves.take(j));
    let m = moves[j];
    assert(moves.take(j + 1).drop_last() =~= moves.take(j));
    assert(moves.take(j + 1).last() == m);
    lemma_concat_contains(seen, u, m);
    if !all_entries(tr0).contains(m) {
        assert forall|i: int| 0 <= i < tr0.len() implies #[trigger] tr1[i] == tr0[i] by {
            assert(tr1.drop_last()[i] == tr1[i]);
        }
        assert forall|i: int| 0 <= i < st0.len() implies #[trigger] st1[i] == st0[i] by {
            assert(st1.drop_last()[i] == st1[i]);
        }
        assert(all_entries(tr1) =~= seen + u.push(m)) by {
            assert(all_entries(tr1) =~= all_entries(tr0).push(m));
        }
        assert(all_entries(st1) =~= base + u.push(m)) by {
            assert(all_entries(st1) =~= all_entries(st0).push(m));
        }
    }
}

impl<G: Fn(&State) -> i64, F: Fn(&State) -> i64> ConstraintSet<G, F> {
    /// The step of the search for a state that meets every constraint: the largest absolute
    /// threshold over the number of constraints, rounded down.
    pub fn search_step(&self) -> (r: i64)
        requires
            self.constraints@.len() > 0,
            forall|k: int| 0 <= k < self.constraints@.len() ==> (#[trigger] self.constraints@[k]).threshold != i64::MIN,
        ensures
            r == widest_threshold(self, self.constraints@.len()) / (self.constraints@.len() as int),
    {
        let n = self.constraints.len();
        let mut widest: i64 = 0;
        let mut i: usize = 0;
        while i < n
            invariant
                n == self.constraints@.len(),
                i <= n,
                forall|k: int| 0 <= k < n ==> (#[trigger] self.constraints@[k]).threshold != i64::MIN,
                widest == widest_threshold(self, i as nat),
                0 <= widest,
            decreases n - i,
        {
            let t = self.constraints[i].threshold;
            let a = if t < 0 {
                -t
            } else {
                t
            };
            if a > widest {
                widest = a;
            }
            i = i + 1;
        }
        let q: u64 = (widest as u64) / (n as u64);
        assert(q <= widest) by (nonlinear_arith)
            requires
                q == (widest as u64) / (n as u64),
                n > 0,
                widest >= 0,
        ;
        q as i64
    }

    /// One step of the search for a state that meets every constraint. When `x` meets them
    /// all, returns `true` and changes nothing. Otherwise returns `false` and, for each
    /// position of `x` in order, offers the state with that value raised by `step`, then the
    /// one with it lowered by `step`: each offered state that `tried` does not hold yet (by
    /// names and values) is recorded in `tried` and pushed onto `stack`. The moves must stay
    /// within the range of `i64` unless `x` meets every constraint.
    pub fn search_from(&self, x: &State, step: i64, tried: &mut Vec<State>, stack: &mut Vec<State>) -> (r: bool)
        requires
            measurable(self, x),
            !fails(self, x) || forall|k: int|
                0 <= k < x.list@.len() ==> i64::MIN <= #[trigger] x.list@[k].1 + step <= i64::MAX
                    && i64::MIN <= x.list@[k].1 - step <= i64::MAX,
        ensures
            r ==> passes(self, x) && final(tried)@ == old(tried)@ && final(stack)@ == old(stack)@,
            !r ==> fails(self, x),
            !r ==> all_entries(final(tried)@) == all_entries(old(tried)@) + unseen(
                all_entries(old(tried)@),
                search_moves(entries(x), step),
            ),
            !r ==> all_entries(final(stack)@) == all_entries(old(stack)@) + unseen(
                all_entries(old(tried)@),
                search_moves(entries(x), step),
            ),
            forall|i: int| 0 <= i < old(tried)@.len() ==> #[trigger] final(tried)@[i] == old(tried)@[i],
            forall|i: int| 0 <= i < old(stack)@.len() ==> #[trigger] final(stack)@[i] == old(stack)@[i],
    {
        if self.is_valid(x) {
            return true;
        }
        let ghost t0 = tried@;
        let ghost s0 = stack@;
        let ghost seen = all_entries(t0);
        let ghost moves = search_moves(entries(x), step);
        let n = x.list.len();
        let mut k: usize = 0;
        while k < n
            invariant
                n == x.list@.len(),
                k <= n,
                moves == search_moves(entries(x), step),
                moves.len() == 2 * n,
                seen == all_entries(t0),
                forall|j: int|
                    0 <= j < x.list@.len() ==> i64::MIN <= #[trigger] x.list@[j].1 + step <= i64::MAX
                        && i64::MIN <= x.list@[j].1 - step <= i64::MAX,
                all_entries(tried@) == seen + unseen(seen, moves.take(2 * k as int)),
                all_entries(stack@) == all_entries(s0) + unseen(seen, moves.take(2 * k as int)),
                tried@.len() >= t0.len(),
                stack@.len() >= s0.len(),
                forall|i: int| 0 <= i < t0.len() ==> #[trigger] tried@[i] == t0[i],
                forall|i: int| 0 <= i < s0.len() ==> #[trigger] stack@[i] == s0[i],
            decreases n - k,
        {
            let up = shifted(x, k, step, true);
            proof {
                lemma_move_entries(x, k as int, step, true, &up);
            }
            let ghost tr1 = tried@;
            let ghost st1 = stack@;
            let ghost u = up;
            offer_untried(up, tried, stack);
            proof {
                lemma_offer_step(seen, all_entries(s0), moves, 2 * k as int, tr1, tried@, st1, stack@, u);
            }
            let down = shifted(x, k, step, false);
            proof {
                lemma_move_entries(x, k as int, step, false, &down);
            }
            let ghost tr2 = tried@;
            let ghost st2 = stack@;
            let ghost d = down;
            offer_untried(down, tried, stack);
            proof {
                lemma_offer_step(seen, all_entries(s0), moves, 2 * k as int + 1, tr2, tried@, st2, stack@, d);
            }
            k = k + 1;
        }
        proof {
            assert(moves.take(2 * n as int) =~= moves);
        }
        false
    }
}

} // verus!
