use vstd::prelude::*;
use vstd::multiset::Multiset;
use vstd::string::StringExecFns;
use crate::extension::ext_matches;
use crate::extension::extension_matches;

verus! {

/// One filesystem entry met during a traversal: the directory it sits in
/// (as a path relative to the scan root, empty for the root itself), its
/// bare name, whether it is itself a directory, and its size in bytes
/// where size metadata could be read.
pub ghost struct ScanEvent {
    pub parent: Seq<char>,
    pub name: Seq<char>,
    pub is_dir: bool,
    pub size: Option<u64>,
}

/// The path of an entry relative to the scan root.
pub open spec fn rel_path(parent: Seq<char>, name: Seq<char>) -> Seq<char> {
    if parent.len() == 0 {
        name
    } else {
        parent + seq!['/'] + name
    }
}

/// What an entry adds to the size total: its size if it is a file whose
/// metadata could be read, nothing for directories and unreadable entries.
pub open spec fn event_size(e: ScanEvent) -> u64 {
    if e.is_dir {
        0
    } else {
        match e.size {
            Some(n) => n,
            None => 0,
        }
    }
}

/// Addition on byte counts, clamped to the largest representable total.
pub open spec fn sat_add(a: u64, b: u64) -> u64 {
    if a + b > u64::MAX {
        u64::MAX
    } else {
        (a + b) as u64
    }
}

/// The size total over a sequence of entries: every file counts,
/// whatever its name and whatever filter is in use.
pub open spec fn scan_total(evs: Seq<ScanEvent>) -> u64
    decreases evs.len(),
{
    if evs.len() == 0 {
        0
    } else {
        sat_add(scan_total(evs.drop_last()), event_size(evs.last()))
    }
}

/// Whether an entry belongs in the match list: a non-directory whose
/// name carries the filter as its extension, up to ASCII case.
pub open spec fn event_matches(e: ScanEvent, filter: Seq<char>) -> bool {
    !e.is_dir && ext_matches(e.name, filter)
}

/// The match list over a sequence of entries: the relative path of every
/// matching file, in the order the entries were met.
pub open spec fn scan_matched(evs: Seq<ScanEvent>, filter: Seq<char>) -> Seq<Seq<char>>
    decreases evs.len(),
{
    if evs.len() == 0 {
        Seq::empty()
    } else {
        let rest = scan_matched(evs.drop_last(), filter);
        if event_matches(evs.last(), filter) {
            rest.push(rel_path(evs.last().parent, evs.last().name))
        } else {
            rest
        }
    }
}

proof fn lemma_scan_total_push(evs: Seq<ScanEvent>, e: ScanEvent)
    ensures
        scan_total(evs.push(e)) == sat_add(scan_total(evs), event_size(e)),
{
    assert(evs.push(e).drop_last() =~= evs);
    assert(evs.push(e).last() == e);
}

proof fn lemma_scan_matched_push(evs: Seq<ScanEvent>, filter: Seq<char>, e: ScanEvent)
    ensures
        scan_matched(evs.push(e), filter) == (if event_matches(e, filter) {
            scan_matched(evs, filter).push(rel_path(e.parent, e.name))
        } else {
            scan_matched(evs, filter)
        }),
{
    assert(evs.push(e).drop_last() =~= evs);
    assert(evs.push(e).last() == e);
}

/// What a finished scan hands back: the byte total over every file met,
/// and the relative paths of the files whose extension matched.
pub struct ScanResult {
    pub total_size_bytes: u64,
    pub matched_entries: Vec<String>,
}

impl ScanResult {
    /// The result of scanning nothing, which is also the result for a
    /// root that does not exist or is not a directory.
    pub fn zero() -> (r: ScanResult)
        ensures
            r.total_size_bytes == 0,
            r.matched_entries@.len() == 0,
    {
        ScanResult { total_size_bytes: 0, matched_entries: Vec::new() }
    }
}

/// Addition on byte counts, clamped, computed.
fn sat_add_x(a: u64, b: u64) -> (r: u64)
    ensures
        r == sat_add(a, b),
{
    if b > u64::MAX - a {
        u64::MAX
    } else {
        a + b
    }
}

/// The relative path of an entry named `name` inside the directory
/// `parent`, itself given relative to the scan root.
fn join_rel(parent: &str, name: &str) -> (r: String)
    ensures
        r@ == rel_path(parent@, name@),
{
    if parent.is_empty() {
        String::from_str(name)
    } else {
        let mut r = String::from_str(parent);
        r.append("/");
        r.append(name);
        proof {
            reveal_strlit("/");
            assert("/"@ =~= seq!['/']);
            assert(r@ =~= rel_path(parent@, name@));
        }
        r
    }
}

/// The traversal state of one scan: the extension filter, the stack of
/// directories still to be listed (as paths relative to the root), and
/// the total and match list accumulated so far. The ghost `events` field
/// records every entry handed in, so the accumulated fields are pinned
/// to the fold of that history.
pub struct Scanner {
    pub filter: String,
    pub stack: Vec<String>,
    pub total: u64,
    pub matched: Vec<String>,
    pub events: Ghost<Seq<ScanEvent>>,
}

impl Scanner {
    /// The accumulated fields agree with the recorded history.
    pub open spec fn wf(self) -> bool {
        &&& self.total == scan_total(self.events@)
        &&& self.matched.deep_view() == scan_matched(self.events@, self.filter@)
    }

    /// A fresh scan: nothing seen, nothing summed, and the root
    /// directory (the empty relative path) waiting to be listed.
    pub fn new(filter: String) -> (s: Scanner)
        ensures
            s.wf(),
            s.filter@ == filter@,
            s.events@ == Seq::<ScanEvent>::empty(),
            s.stack@.len() == 1,
            s.stack.deep_view() == seq![Seq::<char>::empty()],
            s.total == 0,
            s.matched@.len() == 0,
    {
        let mut stack: Vec<String> = Vec::new();
        stack.push(String::new());
        let s = Scanner {
            filter,
            stack,
            total: 0,
            matched: Vec::new(),
            events: Ghost(Seq::empty()),
        };
        proof {
            assert(s.stack.deep_view() =~= seq![Seq::<char>::empty()]);
            assert(s.matched.deep_view() =~= scan_matched(s.events@, s.filter@));
        }
        s
    }

    /// The next directory to list, popped from the stack; `None` once the
    /// traversal is complete. Total, match list and history are untouched.
    pub fn next_dir(&mut self) -> (r: Option<String>)
        requires
            old(self).wf(),
        ensures
            final(self).wf(),
            final(self).filter == old(self).filter,
            final(self).events == old(self).events,
            final(self).total == old(self).total,
            final(self).matched == old(self).matched,
            (match r {
                Some(d) => old(self).stack@.len() > 0 && d@ == old(self).stack.deep_view().last()
                    && final(self).stack.deep_view() == old(self).stack.deep_view().drop_last(),
                None => old(self).stack@.len() == 0 && final(self).stack.deep_view() == old(
                    self,
                ).stack.deep_view(),
            }),
    {
        let r = self.stack.pop();
        proof {
            if old(self).stack@.len() == 0 {
                assert(self.stack.deep_view() =~= old(self).stack.deep_view());
            }
            if old(self).stack@.len() > 0 {
                assert(self.stack.deep_view() =~= old(self).stack.deep_view().drop_last());
                assert(old(self).stack.deep_view().last() == old(self).stack@[old(
                    self,
                ).stack@.len() - 1]@);
            }
        }
        r
    }

    /// Record one directory entry. A directory is pushed onto the stack
    /// and contributes nothing else. A file adds its size (where one was
    /// read) to the total whatever its name; its relative path joins the
    /// match list exactly when its extension equals the filter up to
    /// ASCII case. An unreadable size is skipped silently: the entry may
    /// still match by name.
    pub fn on_entry(&mut self, parent: &str, name: &str, is_dir: bool, size: Option<u64>)
        requires
            old(self).wf(),
        ensures
            final(self).wf(),
            final(self).filter == old(self).filter,
            final(self).events@ == old(self).events@.push(
                (ScanEvent { parent: parent@, name: name@, is_dir, size }),
            ),
            is_dir ==> final(self).stack.deep_view() == old(self).stack.deep_view().push(
                rel_path(parent@, name@),
            ) && final(self).total == old(self).total && final(self).matched == old(self).matched,
            !is_dir ==> final(self).stack == old(self).stack && final(self).total == sat_add(
                old(self).total,
                (match size {
                    Some(n) => n,
                    None => 0,
                }),
            ) && final(self).matched.deep_view() == (if ext_matches(name@, old(self).filter@) {
                old(self).matched.deep_view().push(rel_path(parent@, name@))
            } else {
                old(self).matched.deep_view()
            }),
    {
        let ghost ev = ScanEvent { parent: parent@, name: name@, is_dir, size };
        let rel = join_rel(parent, name);
        if is_dir {
            self.stack.push(rel);
            proof {
                assert(self.stack.deep_view() =~= old(self).stack.deep_view().push(
                    rel_path(parent@, name@),
                ));
            }
        } else {
            match size {
                Some(n) => {
                    self.total = sat_add_x(self.total, n);
                },
                None => {},
            }
            if extension_matches(name, self.filter.as_str()) {
                self.matched.push(rel);
                proof {
                    assert(self.matched.deep_view() =~= old(self).matched.deep_view().push(
                        rel_path(parent@, name@),
                    ));
                }
            }
        }
        proof {
            lemma_scan_total_push(self.events@, ev);
            lemma_scan_matched_push(self.events@, self.filter@, ev);
        }
        self.events = Ghost(self.events@.push(ev));
    }

    /// The accumulated result: the fold of everything handed in.
    pub fn finish(self) -> (r: ScanResult)
        requires
            self.wf(),
        ensures
            r.total_size_bytes == scan_total(self.events@),
            r.matched_entries.deep_view() == scan_matched(self.events@, self.filter@),
            r.total_size_bytes == self.total,
            r.matched_entries == self.matched,
    {
        ScanResult { total_size_bytes: self.total, matched_entries: self.matched }
    }
}

/// The plain, unclamped sum of the sizes of the file entries.
spec fn size_sum(evs: Seq<ScanEvent>) -> nat
    decreases evs.len(),
{
    if evs.len() == 0 {
        0
    } else {
        size_sum(evs.drop_last()) + event_size(evs.last()) as nat
    }
}

/// The total is the plain sum, clamped at the largest representable value.
proof fn lemma_total_is_clamped_sum(evs: Seq<ScanEvent>)
    ensures
        scan_total(evs) == (if size_sum(evs) > u64::MAX {
            u64::MAX
        } else {
            size_sum(evs) as u64
        }),
    decreases evs.len(),
{
    if evs.len() > 0 {
        lemma_total_is_clamped_sum(evs.drop_last());
    }
}

/// Taking one entry out takes exactly its size out of the plain sum.
proof fn lemma_size_sum_remove(evs: Seq<ScanEvent>, j: int)
    requires
        0 <= j < evs.len(),
    ensures
        size_sum(evs.remove(j)) + event_size(evs[j]) == size_sum(evs),
    decreases evs.len(),
{
    if j == evs.len() - 1 {
        assert(evs.remove(j) =~= evs.drop_last());
    } else {
        let r = evs.remove(j);
        assert(r.last() == evs.last());
        assert(r.drop_last() =~= evs.drop_last().remove(j));
        lemma_size_sum_remove(evs.drop_last(), j);
    }
}

/// The plain sum is the same however the entries are ordered.
proof fn lemma_size_sum_permutation(e1: Seq<ScanEvent>, e2: Seq<ScanEvent>)
    requires
        e1.to_multiset() == e2.to_multiset(),
    ensures
        size_sum(e1) == size_sum(e2),
    decreases e1.len(),
{
    broadcast use vstd::seq_lib::group_to_multiset_ensures;

    if e1.len() == 0 {
        e1.to_multiset_ensures();
        e2.to_multiset_ensures();
        assert(e2.len() == 0);
    } else {
        let x = e1.last();
        assert(e1.contains(x));
        assert(e2.to_multiset().count(x) > 0);
        assert(e2.contains(x));
        let j = choose|j: int| 0 <= j < e2.len() && e2[j] == x;
        let e2r = e2.remove(j);
        assert(e1.drop_last().push(x) =~= e1);
        assert(e1.to_multiset() == e1.drop_last().to_multiset().insert(x));
        assert(e1.drop_last().to_multiset() =~= e1.to_multiset().remove(x));
        assert(e2r.to_multiset() =~= e1.drop_last().to_multiset());
        lemma_size_sum_permutation(e1.drop_last(), e2r);
        lemma_size_sum_remove(e2, j);
    }
}

/// What one entry contributes to the match list, as a multiset.
spec fn event_contrib(e: ScanEvent, filter: Seq<char>) -> Multiset<Seq<char>> {
    if event_matches(e, filter) {
        Multiset::singleton(rel_path(e.parent, e.name))
    } else {
        Multiset::empty()
    }
}

/// Taking one entry out takes exactly its contribution out of the match list.
proof fn lemma_matched_remove(evs: Seq<ScanEvent>, filter: Seq<char>, j: int)
    requires
        0 <= j < evs.len(),
    ensures
        scan_matched(evs, filter).to_multiset() == scan_matched(evs.remove(j), filter)
            .to_multiset().add(event_contrib(evs[j], filter)),
    decreases evs.len(),
{
    broadcast use vstd::seq_lib::group_to_multiset_ensures;

    if j == evs.len() - 1 {
        assert(evs.remove(j) =~= evs.drop_last());
        let rest = scan_matched(evs.drop_last(), filter);
        if event_matches(evs.last(), filter) {
            assert(rest.push(rel_path(evs.last().parent, evs.last().name)).to_multiset()
                =~= rest.to_multiset().add(event_contrib(evs[j], filter)));
        } else {
            assert(rest.to_multiset() =~= rest.to_multiset().add(event_contrib(evs[j], filter)));
        }
    } else {
        let r = evs.remove(j);
        assert(r.last() == evs.last());
        assert(r.drop_last() =~= evs.drop_last().remove(j));
        lemma_matched_remove(evs.drop_last(), filter, j);
        let a = scan_matched(evs.drop_last().remove(j), filter).to_multiset();
        let c = event_contrib(evs[j], filter);
        if event_matches(evs.last(), filter) {
            let p = rel_path(evs.last().parent, evs.last().name);
            assert(scan_matched(evs, filter).to_multiset() =~= scan_matched(
                evs.drop_last(),
                filter,
            ).to_multiset().insert(p));
            assert(scan_matched(r, filter).to_multiset() =~= a.insert(p));
            assert(a.add(c).insert(p) =~= a.insert(p).add(c));
        }
    }
}

/// The match list holds the same paths however the entries are ordered.
proof fn lemma_matched_permutation(e1: Seq<ScanEvent>, e2: Seq<ScanEvent>, filter: Seq<char>)
    requires
        e1.to_multiset() == e2.to_multiset(),
    ensures
        scan_matched(e1, filter).to_multiset() == scan_matched(e2, filter).to_multiset(),
    decreases e1.len(),
{
    broadcast use vstd::seq_lib::group_to_multiset_ensures;

    if e1.len() == 0 {
        e1.to_multiset_ensures();
        e2.to_multiset_ensures();
        assert(e2.len() == 0);
    } else {
        let x = e1.last();
        assert(e1.contains(x));
        assert(e2.to_multiset().count(x) > 0);
        assert(e2.contains(x));
        let j = choose|j: int| 0 <= j < e2.len() && e2[j] == x;
        let e2r = e2.remove(j);
        assert(e1.drop_last().push(x) =~= e1);
        assert(e1.to_multiset() == e1.drop_last().to_multiset().insert(x));
        assert(e1.drop_last().to_multiset() =~= e1.to_multiset().remove(x));
        assert(e2r.to_multiset() =~= e1.drop_last().to_multiset());
        lemma_matched_permutation(e1.drop_last(), e2r, filter);
        lemma_matched_remove(e2, filter, j);
        let rest = scan_matched(e1.drop_last(), filter);
        if event_matches(x, filter) {
            assert(scan_matched(e1, filter).to_multiset() =~= rest.to_multiset().insert(
                rel_path(x.parent, x.name),
            ));
            assert(scan_matched(e2, filter).to_multiset() =~= rest.to_multiset().insert(
                rel_path(x.parent, x.name),
            ));
        } else {
            assert(scan_matched(e2, filter).to_multiset() =~= rest.to_multiset());
        }
    }
}

/// Law: the size total is independent of the extension filter. It is a
/// function of the entry sizes alone — names, directories and the filter
/// play no part in it, so any two scans that meet entries of the same
/// sizes, matching or not, agree on the total.
pub proof fn lemma_total_depends_only_on_sizes(e1: Seq<ScanEvent>, e2: Seq<ScanEvent>)
    requires
        e1.len() == e2.len(),
        forall|i: int| 0 <= i < e1.len() ==> event_size(e1[i]) == event_size(e2[i]),
    ensures
        scan_total(e1) == scan_total(e2),
    decreases e1.len(),
{
    if e1.len() > 0 {
        assert(forall|i: int|
            0 <= i < e1.drop_last().len() ==> event_size(e1.drop_last()[i]) == event_size(
                e2.drop_last()[i],
            ));
        lemma_total_depends_only_on_sizes(e1.drop_last(), e2.drop_last());
        assert(event_size(e1.last()) == event_size(e2.last()));
    }
}

/// Law: the match list holds only matches — each of its entries is the
/// relative path of some non-directory entry whose extension equals the
/// filter up to ASCII case.
pub proof fn lemma_matched_only_matches(evs: Seq<ScanEvent>, filter: Seq<char>, k: int)
    requires
        0 <= k < scan_matched(evs, filter).len(),
    ensures
        exists|i: int|
            0 <= i < evs.len() && #[trigger] event_matches(evs[i], filter) && scan_matched(
                evs,
                filter,
            )[k] == rel_path(evs[i].parent, evs[i].name),
    decreases evs.len(),
{
    let cur = scan_matched(evs, filter);
    let rest = scan_matched(evs.drop_last(), filter);
    if k < rest.len() {
        lemma_matched_only_matches(evs.drop_last(), filter, k);
        let i = choose|i: int|
            0 <= i < evs.drop_last().len() && #[trigger] event_matches(evs.drop_last()[i], filter)
                && rest[k] == rel_path(evs.drop_last()[i].parent, evs.drop_last()[i].name);
        assert(evs.drop_last()[i] == evs[i]);
        assert(cur[k] == rest[k]);
        assert(0 <= i < evs.len() && event_matches(evs[i], filter) && cur[k] == rel_path(
            evs[i].parent,
            evs[i].name,
        ));
    } else {
        let i = evs.len() - 1;
        assert(event_matches(evs.last(), filter));
        assert(0 <= i < evs.len() && event_matches(evs[i], filter) && cur[k] == rel_path(
            evs[i].parent,
            evs[i].name,
        ));
    }
}

/// Law: every match is included — a matching file entry, however deeply
/// nested the directory it was met in, contributes its relative path to
/// the match list.
pub proof fn lemma_every_match_included(evs: Seq<ScanEvent>, filter: Seq<char>, i: int)
    requires
        0 <= i < evs.len(),
        event_matches(evs[i], filter),
    ensures
        scan_matched(evs, filter).contains(rel_path(evs[i].parent, evs[i].name)),
    decreases evs.len(),
{
    let cur = scan_matched(evs, filter);
    let rest = scan_matched(evs.drop_last(), filter);
    if i == evs.len() - 1 {
        assert(cur[rest.len() as int] == rel_path(evs[i].parent, evs[i].name));
    } else {
        assert(evs.drop_last()[i] == evs[i]);
        lemma_every_match_included(evs.drop_last(), filter, i);
        let k = choose|k: int|
            0 <= k < rest.len() && rest[k] == rel_path(evs[i].parent, evs[i].name);
        assert(cur[k] == rel_path(evs[i].parent, evs[i].name));
    }
}

/// Law: a filter that nothing matches yields an empty match list — while
/// the total, which ignores the filter, still counts every file.
pub proof fn lemma_no_match_no_entries(evs: Seq<ScanEvent>, filter: Seq<char>)
    requires
        forall|i: int| 0 <= i < evs.len() ==> !event_matches(evs[i], filter),
    ensures
        scan_matched(evs, filter) == Seq::<Seq<char>>::empty(),
    decreases evs.len(),
{
    if evs.len() > 0 {
        assert(forall|i: int|
            0 <= i < evs.drop_last().len() ==> evs.drop_last()[i] == evs[i]);
        lemma_no_match_no_entries(evs.drop_last(), filter);
    }
}

/// Law: a scan is insensitive to the order in which the entries are met.
/// Two traversals that meet the same entries, in whatever order, agree on
/// the total and on the multiset — hence the set — of matched paths. In
/// particular, two consecutive scans of an unchanged tree agree.
pub proof fn lemma_scan_independent_of_order(
    e1: Seq<ScanEvent>,
    e2: Seq<ScanEvent>,
    filter: Seq<char>,
)
    requires
        e1.to_multiset() == e2.to_multiset(),
    ensures
        scan_total(e1) == scan_total(e2),
        scan_matched(e1, filter).to_multiset() == scan_matched(e2, filter).to_multiset(),
{
    lemma_total_is_clamped_sum(e1);
    lemma_total_is_clamped_sum(e2);
    lemma_size_sum_permutation(e1, e2);
    lemma_matched_permutation(e1, e2, filter);
}

} // verus!
