use vstd::prelude::*;
use crate::tracker::{
    Entry, Tracker, Slot, initial, report_all, lemma_report_all_append, views,
    stable_sorted_desc_of,
};

verus! {

/// One entry of a directory listing, named by its full path.
pub enum Child {
    File { path: String, size: u64 },
    Dir(DirNode),
}

/// A directory, named by its full path, with its children where it could be
/// read (`None` where listing it failed).
pub struct DirNode {
    pub path: String,
    pub children: Option<Vec<Child>>,
}

/// The total size of the files under `d`; an unreadable directory adds nothing.
pub open spec fn dir_total(d: DirNode) -> nat
    decreases d,
{
    match d.children {
        None => 0,
        Some(cs) => children_total(cs@),
    }
}

pub open spec fn children_total(cs: Seq<Child>) -> nat
    decreases cs,
{
    if cs.len() == 0 {
        0
    } else {
        children_total(cs.drop_last()) + child_total(cs.last())
    }
}

pub open spec fn child_total(c: Child) -> nat
    decreases c,
{
    match c {
        Child::File { path, size } => size as nat,
        Child::Dir(d) => dir_total(d),
    }
}

/// The reports a walk of `d` makes, in order: each file in file mode; each
/// readable directory with its total, after its contents, in folder mode.
pub open spec fn dir_reports(d: DirNode, only_folders: bool) -> Seq<Slot>
    decreases d,
{
    match d.children {
        None => Seq::empty(),
        Some(cs) => children_reports(cs@, only_folders) + if only_folders {
            seq![(d.path@, children_total(cs@) as u64)]
        } else {
            Seq::empty()
        },
    }
}

pub open spec fn children_reports(cs: Seq<Child>, only_folders: bool) -> Seq<Slot>
    decreases cs,
{
    if cs.len() == 0 {
        Seq::empty()
    } else {
        children_reports(cs.drop_last(), only_folders) + child_reports(cs.last(), only_folders)
    }
}

pub open spec fn child_reports(c: Child, only_folders: bool) -> Seq<Slot>
    decreases c,
{
    match c {
        Child::File { path, size } => if only_folders {
            Seq::empty()
        } else {
            seq![(path@, size)]
        },
        Child::Dir(d) => dir_reports(d, only_folders),
    }
}

proof fn lemma_prefix_total(cs: Seq<Child>, i: int)
    requires
        0 <= i <= cs.len(),
    ensures
        children_total(cs.take(i)) <= children_total(cs),
    decreases cs.len(),
{
    if i < cs.len() {
        assert(cs.drop_last().take(i) =~= cs.take(i));
        lemma_prefix_total(cs.drop_last(), i);
    } else {
        assert(cs.take(i) =~= cs);
    }
}

/// Walks the tree under `dir`, reporting each file (or, with `only_folders`,
/// each readable directory with its total) to `tracker`, and returns the total
/// size of the files under `dir`.
pub fn walk(dir: &DirNode, only_folders: bool, tracker: &mut Tracker) -> (total: u64)
    requires
        old(tracker).wf(),
        dir_total(*dir) <= u64::MAX,
    ensures
        total == dir_total(*dir),
        final(tracker).wf(),
        final(tracker).state() == report_all(old(tracker).state(), dir_reports(*dir, only_folders)),
    decreases dir,
{
    match &dir.children {
        None => {
            assert(dir_reports(*dir, only_folders) =~= Seq::<Slot>::empty());
            0
        },
        Some(cs) => {
            let ghost start = tracker.state();
            let mut folder_size: u64 = 0;
            let mut i: usize = 0;
            assert(cs@.take(0) =~= Seq::<Child>::empty());
            while i < cs.len()
                invariant
                    i <= cs.len(),
                    dir.children == Some(*cs),
                    children_total(cs@) <= u64::MAX,
                    folder_size == children_total(cs@.take(i as int)),
                    tracker.wf(),
                    tracker.state() == report_all(start, children_reports(cs@.take(i as int), only_folders)),
                decreases cs.len() - i,
            {
                let ghost mid = tracker.state();
                let ghost prefix = cs@.take(i as int);
                assert(cs@.take(i + 1).drop_last() =~= prefix);
                assert(cs@.take(i + 1).last() == cs@[i as int]);
                proof {
                    lemma_prefix_total(cs@, i + 1);
                }
                assert(children_total(cs@.take(i + 1)) == folder_size + child_total(cs@[i as int]));
                match &cs[i] {
                    Child::Dir(sub) => {
                        proof {
                            vstd::std_specs::vec::axiom_vec_index_decreases(*cs, i as int);
                            assert(decreases_to!(*dir => dir.children));
                            assert(dir.children->Some_0 == *cs);
                            assert(decreases_to!(dir.children => *cs));
                            assert(decreases_to!(*cs => cs[i as int]));
                            assert(decreases_to!(cs[i as int] => *sub));
                        }
                        let t = walk(sub, only_folders, tracker);
                        folder_size = folder_size + t;
                        assert(tracker.state() == report_all(mid, child_reports(cs@[i as int], only_folders)));
                    },
                    Child::File { path, size } => {
                        assert(cs@[i as int] == (Child::File { path: *path, size: *size }));
                        if !only_folders {
                            tracker.report(path.clone(), *size);
                            let ghost one = seq![(path@, *size)];
                            assert(one.drop_last() =~= Seq::<Slot>::empty());
                            assert(report_all(mid, one.drop_last()) == mid);
                        }
                        folder_size = folder_size + *size;
                        assert(tracker.state() == report_all(mid, child_reports(cs@[i as int], only_folders)));
                    },
                }
                assert(children_reports(cs@.take(i + 1), only_folders) == children_reports(prefix, only_folders) + child_reports(cs@[i as int], only_folders));
                proof {
                    lemma_report_all_append(start, children_reports(prefix, only_folders), child_reports(cs@[i as int], only_folders));
                }
                i = i + 1;
            }
            assert(cs@.take(i as int) =~= cs@);
            assert(dir_reports(*dir, only_folders) == children_reports(cs@, only_folders) + if only_folders {
                seq![(dir.path@, children_total(cs@) as u64)]
            } else {
                Seq::<Slot>::empty()
            });
            if only_folders {
                tracker.report(dir.path.clone(), folder_size);
                proof {
                    let last = seq![(dir.path@, folder_size)];
                    let cr = children_reports(cs@, only_folders);
                    assert(last.drop_last() =~= Seq::<Slot>::empty());
                    assert(report_all(report_all(start, cr), last.drop_last()) == report_all(start, cr));
                    lemma_report_all_append(start, cr, last);
                }
            } else {
                assert(children_reports(cs@, only_folders) + Seq::<Slot>::empty() =~= children_reports(cs@, only_folders));
            }
            folder_size
        },
    }
}

/// The total size of the files under `dir`, or `None` where it does not fit
/// in a `u64`.
pub fn total_size(dir: &DirNode) -> (r: Option<u64>)
    ensures
        r == (if dir_total(*dir) <= u64::MAX {
            Some(dir_total(*dir) as u64)
        } else {
            None::<u64>
        }),
    decreases dir,
{
    match &dir.children {
        None => Some(0),
        Some(cs) => {
            let mut sum: u64 = 0;
            let mut i: usize = 0;
            assert(cs@.take(0) =~= Seq::<Child>::empty());
            while i < cs.len()
                invariant
                    i <= cs.len(),
                    dir.children == Some(*cs),
                    sum == children_total(cs@.take(i as int)),
                decreases cs.len() - i,
            {
                assert(cs@.take(i + 1).drop_last() =~= cs@.take(i as int));
                assert(cs@.take(i + 1).last() == cs@[i as int]);
                assert(children_total(cs@.take(i + 1)) == sum + child_total(cs@[i as int]));
                assert(dir_total(*dir) == children_total(cs@));
                let part: Option<u64> = match &cs[i] {
                    Child::Dir(sub) => {
                        proof {
                            vstd::std_specs::vec::axiom_vec_index_decreases(*cs, i as int);
                            assert(dir.children->Some_0 == *cs);
                            assert(decreases_to!(*dir => dir.children));
                            assert(decreases_to!(dir.children => *cs));
                            assert(decreases_to!(*cs => cs[i as int]));
                            assert(decreases_to!(cs[i as int] => *sub));
                        }
                        total_size(sub)
                    },
                    Child::File { path, size } => Some(*size),
                };
                match part {
                    None => {
                        proof {
                            lemma_prefix_total(cs@, i + 1);
                        }
                        return None;
                    },
                    Some(t) => {
                        match sum.checked_add(t) {
                            None => {
                                proof {
                                    lemma_prefix_total(cs@, i + 1);
                                }
                                return None;
                            },
                            Some(next) => {
                                sum = next;
                            },
                        }
                    },
                }
                i = i + 1;
            }
            assert(cs@.take(i as int) =~= cs@);
            Some(sum)
        },
    }
}

/// Scans the tree under `root` with a tracker of `max_items` slots and returns
/// the tracked entries, largest first; `None` where the total size of the tree
/// does not fit in a `u64`.
pub fn scan(root: &DirNode, only_folders: bool, max_items: u8) -> (r: Option<Vec<Entry>>)
    ensures
        dir_total(*root) <= u64::MAX <==> r is Some,
        r matches Some(v) ==> stable_sorted_desc_of(
            views(v@),
            report_all(initial(max_items as nat), dir_reports(*root, only_folders)).slots,
        ),
{
    if total_size(root).is_none() {
        return None;
    }
    let mut tracker = Tracker::new(max_items);
    walk(root, only_folders, &mut tracker);
    Some(tracker.finalize())
}

} // verus!
