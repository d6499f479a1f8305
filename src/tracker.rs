use vstd::prelude::*;
use vstd::multiset::Multiset;

verus! {

/// Bytes in one megabyte.
pub const MB_FACTOR: u64 = 1048576;

/// A tracked item: its path and its size in bytes.
#[derive(Clone, Debug, PartialEq, Eq, PartialOrd, Ord)]
pub struct Entry {
    pub item_name: String,
    pub size: u64,
}

/// The mathematical value of an entry: its name as characters and its size.
pub type Slot = (Seq<char>, u64);

impl View for Entry {
    type V = Slot;

    open spec fn view(&self) -> Slot {
        (self.item_name@, self.size)
    }
}

/// The state of a tracker: its slots and the index of the slot that the next
/// accepted report overwrites.
pub struct TrackerState {
    pub slots: Seq<Slot>,
    pub min_pos: int,
}

/// The slot that every tracker starts with.
pub open spec fn placeholder() -> Slot {
    (Seq::empty(), 0u64)
}

/// `k` placeholder slots.
pub open spec fn placeholders(k: nat) -> Seq<Slot> {
    Seq::new(k, |i: int| placeholder())
}

/// A fresh tracker of capacity `k`.
pub open spec fn initial(k: nat) -> TrackerState {
    TrackerState { slots: placeholders(k), min_pos: 0 }
}

/// The highest index among the slots of smallest size.
pub open spec fn last_min_index(s: Seq<Slot>) -> int
    decreases s.len(),
{
    if s.len() <= 1 {
        0
    } else {
        let j = last_min_index(s.drop_last());
        if s.last().1 <= s[j].1 {
            s.len() - 1
        } else {
            j
        }
    }
}

/// The effect of reporting `(name, size)`: a size below the current minimum is
/// dropped; otherwise it replaces the slot at `min_pos`, and `min_pos` moves to
/// the last slot of smallest size.
pub open spec fn report_step(st: TrackerState, name: Seq<char>, size: u64) -> TrackerState {
    if st.slots.len() == 0 || size < st.slots[st.min_pos].1 {
        st
    } else {
        let s = st.slots.update(st.min_pos, (name, size));
        TrackerState { slots: s, min_pos: last_min_index(s) }
    }
}

/// The effect of a sequence of reports, made in order.
pub open spec fn report_all(st: TrackerState, reports: Seq<Slot>) -> TrackerState
    decreases reports.len(),
{
    if reports.len() == 0 {
        st
    } else {
        let before = report_all(st, reports.drop_last());
        report_step(before, reports.last().0, reports.last().1)
    }
}

/// `last_min_index` picks a slot of smallest size, and every later slot is
/// strictly larger.
pub proof fn lemma_last_min_index(s: Seq<Slot>)
    requires
        s.len() > 0,
    ensures
        0 <= last_min_index(s) < s.len(),
        forall|j: int| 0 <= j < s.len() ==> s[last_min_index(s)].1 <= #[trigger] s[j].1,
        forall|j: int|
            last_min_index(s) < j < s.len() ==> s[last_min_index(s)].1 < #[trigger] s[j].1,
    decreases s.len(),
{
    if s.len() > 1 {
        let d = s.drop_last();
        lemma_last_min_index(d);
        let m = last_min_index(s);
        assert forall|i: int| 0 <= i < s.len() implies s[m].1 <= #[trigger] s[i].1 by {
            if i < d.len() {
                assert(d[i] == s[i]);
            }
        }
        assert forall|i: int| m < i < s.len() implies s[m].1 < #[trigger] s[i].1 by {
            if i < d.len() {
                assert(d[i] == s[i]);
            }
        }
    }
}

/// Reporting `a` and then `b` is reporting `a + b`.
pub proof fn lemma_report_all_append(st: TrackerState, a: Seq<Slot>, b: Seq<Slot>)
    ensures
        report_all(st, a + b) == report_all(report_all(st, a), b),
    decreases b.len(),
{
    if b.len() == 0 {
        assert(a + b =~= a);
    } else {
        assert((a + b).drop_last() =~= a + b.drop_last());
        lemma_report_all_append(st, a, b.drop_last());
    }
}

/// The values of a sequence of entries.
pub open spec fn views(v: Seq<Entry>) -> Seq<Slot> {
    v.map_values(|e: Entry| e@)
}

/// Sizes never increase along `s`.
pub open spec fn sorted_desc(s: Seq<Slot>) -> bool {
    forall|i: int, j: int| 0 <= i < j < s.len() ==> s[i].1 >= s[j].1
}

/// Holds of the slots of size `v`.
pub open spec fn size_is(v: u64) -> spec_fn(Slot) -> bool {
    |e: Slot| e.1 == v
}

/// `out` is `s` sorted by size, largest first, with entries of equal size in
/// the order they had in `s`.
pub open spec fn stable_sorted_desc_of(out: Seq<Slot>, s: Seq<Slot>) -> bool {
    &&& sorted_desc(out)
    &&& out.to_multiset() == s.to_multiset()
    &&& forall|v: u64| #[trigger] out.filter(size_is(v)) == s.filter(size_is(v))
}

/// Converts a byte count to whole megabytes, rounding down.
pub fn to_mb(bytes_source: u64) -> (r: u64)
    ensures
        r == bytes_source / MB_FACTOR,
{
    bytes_source / MB_FACTOR
}

/// A fixed-capacity record of the largest entries reported so far.
pub struct Tracker {
    list: Vec<Entry>,
    min: u64,
    min_pos: usize,
}

impl Tracker {
    pub closed spec fn state(&self) -> TrackerState {
        TrackerState { slots: self.list@.map_values(|e: Entry| e@), min_pos: self.min_pos as int }
    }

    /// `min` is the smallest size held and `min_pos` a slot that holds it.
    pub closed spec fn wf(&self) -> bool {
        &&& self.list.len() == 0 ==> self.min_pos == 0 && self.min == 0
        &&& self.list.len() > 0 ==> self.min_pos < self.list.len()
        &&& self.list.len() > 0 ==> self.list@[self.min_pos as int].size == self.min
        &&& forall|i: int| 0 <= i < self.list.len() ==> self.min <= #[trigger] self.list@[i].size
    }

    /// A tracker of `max_items` placeholder slots.
    pub fn new(max_items: u8) -> (t: Tracker)
        ensures
            t.wf(),
            t.state() == initial(max_items as nat),
    {
        let mut list: Vec<Entry> = Vec::new();
        let mut i: u8 = 0;
        while i < max_items
            invariant
                i <= max_items,
                list.len() == i,
                forall|j: int| 0 <= j < i ==> #[trigger] list@[j]@ == placeholder(),
            decreases max_items - i,
        {
            list.push(Entry { item_name: String::new(), size: 0 });
            i = i + 1;
        }
        assert forall|j: int| 0 <= j < list.len() implies #[trigger] list@[j].size == 0 by {
            assert(list@[j]@ == placeholder());
        }
        let t = Tracker { list, min: 0, min_pos: 0 };
        assert(t.state().slots =~= placeholders(max_items as nat));
        t
    }

    /// Offers an entry: it is kept when its size is at least the smallest size
    /// held, in place of the slot at `min_pos`.
    pub fn report(&mut self, file_name: String, size: u64)
        requires
            old(self).wf(),
        ensures
            final(self).wf(),
            final(self).state() == report_step(old(self).state(), file_name@, size),
    {
        if self.list.len() == 0 || size < self.min {
            return;
        }
        let pos = self.min_pos;
        self.list[pos] = Entry { item_name: file_name, size: size };
        let ghost s = self.state().slots;
        assert(s =~= old(self).state().slots.update(pos as int, (file_name@, size)));
        let mut new_min: u64 = self.list[0].size;
        let mut new_pos: usize = 0;
        let mut i: usize = 1;
        while i < self.list.len()
            invariant
                1 <= i <= self.list.len(),
                s == self.state().slots,
                new_pos < i,
                new_min == s[new_pos as int].1,
                new_pos == last_min_index(s.take(i as int)),
            decreases self.list.len() - i,
        {
            assert(s.take(i + 1).drop_last() =~= s.take(i as int));
            if self.list[i].size <= new_min {
                new_min = self.list[i].size;
                new_pos = i;
            }
            i = i + 1;
        }
        assert(s.take(i as int) =~= s);
        proof {
            lemma_last_min_index(s);
            assert forall|j: int| 0 <= j < self.list.len() implies new_min <= #[trigger] self.list@[j].size by {
                assert(s[j] == self.list@[j]@);
                assert(s[new_pos as int].1 <= s[j].1);
            }
        }
        self.min = new_min;
        self.min_pos = new_pos;
    }

    /// Consumes the tracker and returns its entries sorted by size, largest
    /// first, entries of equal size keeping their slot order.
    pub fn finalize(self) -> (r: Vec<Entry>)
        requires
            self.wf(),
        ensures
            stable_sorted_desc_of(views(r@), self.state().slots),
    {
        let ghost orig = self.state().slots;
        let ghost n = orig.len();
        let mut list = self.list;
        let mut out: Vec<Entry> = Vec::new();
        let ghost mut i: int = 0;
        assert(views(list@) =~= orig.subrange(0, n as int));
        assert(views(out@) =~= orig.take(0));
        while list.len() > 0
            invariant
                0 <= i <= n,
                n == orig.len(),
                i + list.len() == n,
                views(list@) == orig.subrange(i, n as int),
                sorted_desc(views(out@)),
                views(out@).to_multiset() == orig.take(i).to_multiset(),
                forall|v: u64| #[trigger] views(out@).filter(size_is(v)) == orig.take(i).filter(size_is(v)),
            decreases list.len(),
        {
            let ghost before = views(out@);
            let ghost rest = list@;
            assert(views(rest)[0] == rest[0]@);
            let e = list.remove(0);
            assert(e@ == orig[i]);
            assert(views(list@) =~= views(rest).subrange(1, views(rest).len() as int));
            let mut j: usize = 0;
            while j < out.len() && out[j].size >= e.size
                invariant
                    j <= out.len(),
                    before == views(out@),
                    forall|k: int| 0 <= k < j ==> before[k].1 >= e.size,
                decreases out.len() - j,
            {
                j = j + 1;
            }
            let ghost ev = e@;
            out.insert(j, e);
            proof {
                lemma_insert_sorted(before, j as int, ev);
                assert(views(out@) =~= before.insert(j as int, ev));
                assert(orig.take(i + 1) =~= orig.take(i).push(ev));
                vstd::seq_lib::to_multiset_build(orig.take(i), ev);
                assert forall|v: u64| #[trigger] views(out@).filter(size_is(v)) == orig.take(i + 1).filter(size_is(v)) by {
                    orig.take(i).lemma_filter_push(ev, size_is(v));
                }
                assert(views(list@) =~= orig.subrange(i + 1, n as int));
                i = i + 1;
            }
        }
        assert(orig.take(i) =~= orig);
        out
    }
}

/// Inserting `x` at `p`, where every earlier size is at least `x`'s and every
/// later one is smaller, keeps a sequence sorted and extends the class of
/// `x`'s size at its end.
proof fn lemma_insert_sorted(s: Seq<Slot>, p: int, x: Slot)
    requires
        sorted_desc(s),
        0 <= p <= s.len(),
        forall|k: int| 0 <= k < p ==> s[k].1 >= x.1,
        p < s.len() ==> s[p].1 < x.1,
    ensures
        sorted_desc(s.insert(p, x)),
        s.insert(p, x).to_multiset() == s.to_multiset().insert(x),
        forall|v: u64|
            #[trigger] s.insert(p, x).filter(size_is(v)) == if x.1 == v {
                s.filter(size_is(v)).push(x)
            } else {
                s.filter(size_is(v))
            },
{
    broadcast use vstd::seq_lib::to_multiset_insert;

    let t = s.insert(p, x);
    assert forall|i: int, j: int| 0 <= i < j < t.len() implies t[i].1 >= t[j].1 by {
        if j < p {
        } else if j == p {
        } else if i < p {
            assert(t[j] == s[j - 1]);
            assert(s[p].1 < x.1);
        } else if i == p {
            assert(t[j] == s[j - 1]);
            assert(s[p].1 >= s[j - 1].1);
        } else {
            assert(t[j] == s[j - 1]);
            assert(t[i] == s[i - 1]);
        }
    }
    let a = s.take(p);
    let b = s.skip(p);
    assert(t =~= a.push(x) + b);
    assert(s =~= a + b);
    assert forall|v: u64| #[trigger] t.filter(size_is(v)) == if x.1 == v {
        s.filter(size_is(v)).push(x)
    } else {
        s.filter(size_is(v))
    } by {
        let f = size_is(v);
        Seq::filter_distributes_over_add(a.push(x), b, f);
        Seq::filter_distributes_over_add(a, b, f);
        a.lemma_filter_push(x, f);
        if x.1 == v {
            assert(b.all(|y: Slot| !f(y))) by {
                assert forall|k: int| 0 <= k < b.len() implies !f(#[trigger] b[k]) by {
                    assert(s[p].1 >= s[p + k].1);
                }
            }
            b.lemma_all_neg_filter_empty(f);
            assert(b.filter(f) =~= Seq::<Slot>::empty());
            assert(a.filter(f).push(x) + b.filter(f) =~= (a.filter(f) + b.filter(f)).push(x));
        }
    }
}

proof fn lemma_placeholder_count(k: nat)
    ensures
        placeholders(k).to_multiset().count(placeholder()) == k,
    decreases k,
{
    broadcast use vstd::seq_lib::group_to_multiset_ensures;

    if k == 0 {
        assert(placeholders(0) =~= Seq::<Slot>::empty());
    } else {
        lemma_placeholder_count((k - 1) as nat);
        assert(placeholders(k) =~= placeholders((k - 1) as nat).push(placeholder()));
    }
}

/// The state after `rs` is reported to a fresh tracker of capacity `k`, and
/// the entries it let go (returned): together they are `rs` and the
/// placeholders, and nothing let go is larger than a slot kept.
proof fn lemma_reports_keep_largest(k: nat, rs: Seq<Slot>) -> (evicted: Multiset<Slot>)
    ensures
        report_all(initial(k), rs).slots.len() == k,
        k == 0 ==> report_all(initial(k), rs).min_pos == 0,
        k > 0 ==> 0 <= report_all(initial(k), rs).min_pos < k,
        forall|j: int|
            0 <= j < k ==> report_all(initial(k), rs).slots[report_all(initial(k), rs).min_pos].1
                <= #[trigger] report_all(initial(k), rs).slots[j].1,
        report_all(initial(k), rs).slots.to_multiset().add(evicted) == rs.to_multiset().add(
            placeholders(k).to_multiset(),
        ),
        forall|y: Slot, j: int|
            #![trigger evicted.count(y), report_all(initial(k), rs).slots[j]]
            evicted.contains(y) && 0 <= j < k ==> y.1 <= report_all(initial(k), rs).slots[j].1,
        report_all(initial(k), rs).slots.to_multiset().count(placeholder()) + rs.len() >= k,
    decreases rs.len(),
{
    broadcast use vstd::seq_lib::group_to_multiset_ensures, vstd::multiset::group_multiset_axioms;

    if rs.len() == 0 {
        lemma_placeholder_count(k);
        assert(rs.to_multiset() =~= Multiset::empty());
        assert(placeholders(k).to_multiset().add(Multiset::empty()) =~= Multiset::<Slot>::empty().add(
            placeholders(k).to_multiset(),
        ));
        Multiset::empty()
    } else {
        let rs0 = rs.drop_last();
        let x = rs.last();
        let e0 = lemma_reports_keep_largest(k, rs0);
        let st0 = report_all(initial(k), rs0);
        let st = report_all(initial(k), rs);
        let pm = placeholders(k).to_multiset();
        assert(rs =~= rs0.push(x));
        assert(rs.to_multiset() == rs0.to_multiset().insert(x));
        assert(st == report_step(st0, x.0, x.1));
        if k == 0 || x.1 < st0.slots[st0.min_pos].1 {
            let e = e0.insert(x);
            assert(st.slots == st0.slots);
            assert forall|v: Slot| #[trigger] st.slots.to_multiset().add(e).count(v) == rs.to_multiset().add(pm).count(v) by {
                assert(st0.slots.to_multiset().add(e0).count(v) == rs0.to_multiset().add(pm).count(v));
            }
            assert(st.slots.to_multiset().add(e) =~= rs.to_multiset().add(pm));
            e
        } else {
            let p = st0.min_pos;
            let gone = st0.slots[p];
            let e = e0.insert(gone);
            let s1 = st.slots;
            assert(s1 =~= st0.slots.remove(p).insert(p, x));
            vstd::seq_lib::to_multiset_remove(st0.slots, p);
            vstd::seq_lib::to_multiset_insert(st0.slots.remove(p), p, x);
            assert(st0.slots.to_multiset().count(gone) > 0);
            assert(s1.to_multiset() == st0.slots.to_multiset().remove(gone).insert(x));
            assert forall|v: Slot| #[trigger] s1.to_multiset().add(e).count(v) == rs.to_multiset().add(pm).count(v) by {
                assert(st0.slots.to_multiset().add(e0).count(v) == rs0.to_multiset().add(pm).count(v));
            }
            assert(s1.to_multiset().add(e) =~= rs.to_multiset().add(pm));
            lemma_last_min_index(s1);
            assert forall|y: Slot, j: int|
                #![trigger e.count(y), s1[j]]
                e.contains(y) && 0 <= j < k implies y.1 <= s1[j].1 by {
                if j != p {
                    assert(s1[j] == st0.slots[j]);
                }
                if y != gone {
                    assert(e0.contains(y));
                    assert(y.1 <= st0.slots[p].1);
                    assert(y.1 <= st0.slots[j].1);
                }
            }
            e
        }
    }
}

/// Whatever is reported to a fresh tracker of capacity `k`, in whatever order,
/// its output, sorted largest first, holds `k` entries that are the `k`
/// largest of the reports and `k` placeholders together: what was left out is
/// nowhere larger than what was kept. With fewer than `k` reports, at least
/// `k` less their number of the entries are placeholders.
pub proof fn lemma_output_keeps_largest(k: nat, reports: Seq<Slot>, out: Seq<Slot>)
    requires
        stable_sorted_desc_of(out, report_all(initial(k), reports).slots),
    ensures
        out.len() == k,
        sorted_desc(out),
        exists|left_out: Multiset<Slot>|
            {
                &&& #[trigger] out.to_multiset().add(left_out) == reports.to_multiset().add(
                    placeholders(k).to_multiset(),
                )
                &&& forall|x: Slot, y: Slot|
                    out.to_multiset().contains(x) && left_out.contains(y) ==> y.1 <= x.1
            },
        reports.len() < k ==> out.to_multiset().count(placeholder()) >= k - reports.len(),
{
    broadcast use vstd::seq_lib::group_to_multiset_ensures;

    let e = lemma_reports_keep_largest(k, reports);
    let slots = report_all(initial(k), reports).slots;
    assert(out.len() == out.to_multiset().len());
    assert(slots.len() == slots.to_multiset().len());
    assert forall|x: Slot, y: Slot|
        out.to_multiset().contains(x) && e.contains(y) implies y.1 <= x.1 by {
        assert(slots.contains(x));
        let j = choose|j: int| 0 <= j < slots.len() && slots[j] == x;
        assert(e.count(y) > 0);
        assert(y.1 <= slots[j].1);
    }
}

/// Holds of the slots of size at least `t`.
pub open spec fn size_at_least(t: u64) -> spec_fn(Slot) -> bool {
    |e: Slot| e.1 >= t
}

proof fn lemma_filter_len_add(a: Multiset<Slot>, b: Multiset<Slot>, f: spec_fn(Slot) -> bool)
    ensures
        a.add(b).filter(f).len() == a.filter(f).len() + b.filter(f).len(),
{
    broadcast use vstd::multiset::group_multiset_axioms;

    assert(a.add(b).filter(f) =~= a.filter(f).add(b.filter(f)));
}

proof fn lemma_filter_len_le(m: Multiset<Slot>, f: spec_fn(Slot) -> bool)
    ensures
        m.filter(f).len() <= m.len(),
{
    broadcast use vstd::multiset::group_multiset_axioms;

    let g = |e: Slot| !f(e);
    assert(m =~= m.filter(f).add(m.filter(g)));
}

/// Where `m` and `left_out` make up `all`, `m` holds `k` entries and nothing
/// left out is larger than an entry of `m`, the number of entries of `m` of
/// size at least `t` is fixed by `all` and `k`.
proof fn lemma_count_at_least(
    k: nat,
    m: Multiset<Slot>,
    left_out: Multiset<Slot>,
    all: Multiset<Slot>,
    t: u64,
)
    requires
        m.len() == k,
        m.add(left_out) == all,
        forall|x: Slot, y: Slot| m.contains(x) && left_out.contains(y) ==> y.1 <= x.1,
    ensures
        m.filter(size_at_least(t)).len() == if all.filter(size_at_least(t)).len() < k {
            all.filter(size_at_least(t)).len()
        } else {
            k
        },
{
    broadcast use vstd::multiset::group_multiset_axioms;

    let f = size_at_least(t);
    lemma_filter_len_add(m, left_out, f);
    lemma_filter_len_le(m, f);
    if exists|y: Slot| left_out.contains(y) && y.1 >= t {
        let y = choose|y: Slot| left_out.contains(y) && y.1 >= t;
        assert forall|x: Slot| #[trigger] m.filter(f).count(x) == m.count(x) by {
            if m.count(x) > 0 {
                assert(m.contains(x));
                assert(y.1 <= x.1);
            }
        }
        assert(m.filter(f) =~= m);
        assert(left_out.filter(f).count(y) > 0);
    } else {
        assert forall|y: Slot| #[trigger] left_out.filter(f).count(y) == 0 by {
            if left_out.count(y) > 0 {
                assert(left_out.contains(y));
            }
        }
        assert(left_out.filter(f) =~= Multiset::empty());
    }
}

/// The number of entries of size `v` in `m`, from the counts at two thresholds.
proof fn lemma_count_of_size(m: Multiset<Slot>, v: u64)
    ensures
        v < u64::MAX ==> m.filter(size_is(v)).len() == m.filter(size_at_least(v)).len() - m.filter(
            size_at_least((v + 1) as u64),
        ).len(),
        v == u64::MAX ==> m.filter(size_is(v)) == m.filter(size_at_least(v)),
{
    broadcast use vstd::multiset::group_multiset_axioms;

    if v < u64::MAX {
        let w = (v + 1) as u64;
        assert(m.filter(size_at_least(v)) =~= m.filter(size_is(v)).add(m.filter(size_at_least(w))));
    } else {
        assert(m.filter(size_is(v)) =~= m.filter(size_at_least(v)));
    }
}

/// The entries kept after reports `rs` to a fresh tracker of capacity `k`,
/// with what was left out, in the form the counting lemmas take.
proof fn lemma_kept_split(k: nat, rs: Seq<Slot>) -> (left_out: Multiset<Slot>)
    ensures
        report_all(initial(k), rs).slots.to_multiset().len() == k,
        report_all(initial(k), rs).slots.to_multiset().add(left_out) == rs.to_multiset().add(
            placeholders(k).to_multiset(),
        ),
        forall|x: Slot, y: Slot|
            report_all(initial(k), rs).slots.to_multiset().contains(x) && left_out.contains(y)
                ==> y.1 <= x.1,
{
    broadcast use vstd::seq_lib::group_to_multiset_ensures;

    let e = lemma_reports_keep_largest(k, rs);
    let slots = report_all(initial(k), rs).slots;
    assert forall|x: Slot, y: Slot|
        slots.to_multiset().contains(x) && e.contains(y) implies y.1 <= x.1 by {
        assert(slots.contains(x));
        let j = choose|j: int| 0 <= j < slots.len() && slots[j] == x;
        assert(e.count(y) > 0);
        assert(y.1 <= slots[j].1);
    }
    e
}

/// The order of the reports does not change which sizes a tracker keeps:
/// for two orderings of the same reports to fresh trackers of capacity `k`,
/// each size is held by as many slots in the one as in the other. (Which of
/// several entries of equal size is kept may differ.)
pub proof fn lemma_report_order_keeps_sizes(k: nat, rs1: Seq<Slot>, rs2: Seq<Slot>, v: u64)
    requires
        rs1.to_multiset() == rs2.to_multiset(),
    ensures
        report_all(initial(k), rs1).slots.to_multiset().filter(size_is(v)).len()
            == report_all(initial(k), rs2).slots.to_multiset().filter(size_is(v)).len(),
{
    let m1 = report_all(initial(k), rs1).slots.to_multiset();
    let m2 = report_all(initial(k), rs2).slots.to_multiset();
    let all = rs1.to_multiset().add(placeholders(k).to_multiset());
    let e1 = lemma_kept_split(k, rs1);
    let e2 = lemma_kept_split(k, rs2);
    lemma_count_at_least(k, m1, e1, all, v);
    lemma_count_at_least(k, m2, e2, all, v);
    lemma_count_of_size(m1, v);
    lemma_count_of_size(m2, v);
    if v < u64::MAX {
        let w = (v + 1) as u64;
        lemma_count_at_least(k, m1, e1, all, w);
        lemma_count_at_least(k, m2, e2, all, w);
    }
}

} // verus!
