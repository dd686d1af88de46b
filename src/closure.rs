//! The walk over the dependency graph that fills the flat library
//! directory.
//!
//! The walk is a state machine: each call of `resume` takes what the caller
//! observed (a listing, the contents of two files, a finished copy) and
//! returns the next thing to do. It is depth first: the libraries that a
//! listing names are taken in order, and a newly copied library is queried
//! before its siblings. The visited set maps each copied base name to the
//! path it was copied from. A library met again under the same path is
//! skipped; one met under another path is compared with the copy and
//! skipped when identical, else the walk fails. So each base name is copied
//! at most once and queried at most once, which makes the walk end on cyclic
//! graphs.
use vstd::prelude::*;
use crate::compare::{are_compatible, bytes_equal, compatible};
use crate::listing::{listing, parse_listing, views};
use crate::paths::{base_name, copy_bytes, copy_path, file_name, join};

verus! {

/// Why a walk stopped.
pub enum WalkError {
    /// The resolver printed a line that does not have the expected shape.
    Malformed { line: Vec<u8> },
    /// A resolved path with no usable file name.
    NoFileName { path: Vec<u8> },
    /// A file already at the destination differs from the library that
    /// would be copied over it.
    Collision { source: Vec<u8>, destination: Vec<u8> },
    /// An event that does not answer the last action, or one after the walk
    /// ended.
    OutOfTurn,
}

/// What the caller does next.
pub enum Action {
    /// Run the resolver on `binary` and hand back its output as
    /// `Event::Listing`.
    Query { binary: Vec<u8> },
    /// Read both files and hand them back as `Event::Contents`, with `None`
    /// for a file that does not exist.
    Inspect { source: Vec<u8>, destination: Vec<u8> },
    /// Copy `source` to `destination`, overwriting it, and hand back
    /// `Event::Copied`.
    Copy { source: Vec<u8>, destination: Vec<u8> },
    /// The closure is complete.
    Done,
    /// The walk failed and is over.
    Fail { error: WalkError },
}

/// What the caller observed after performing an action.
pub enum Event {
    Listing { output: Vec<u8> },
    Contents { source: Option<Vec<u8>>, destination: Option<Vec<u8>> },
    Copied,
}

/// What the walk waits for.
pub enum Stage {
    Listing,
    Contents,
    /// The contents of a library whose base name was already copied from
    /// another path.
    Recheck,
    Copied,
    Over,
}

/// A library named by a listing: its resolved path, its base name, and the
/// path of its copy.
struct Entry {
    source: Vec<u8>,
    name: Vec<u8>,
    target: Vec<u8>,
}

/// The state of one walk.
pub struct Walk {
    /// The directory that receives the copies.
    dir: Vec<u8>,
    /// The visited set: base names copied so far, in order.
    copied: Vec<Vec<u8>>,
    /// For each copied base name, the path it was copied from.
    sources: Vec<Vec<u8>>,
    /// The explicit stack: for each binary whose dependencies are being
    /// walked, the libraries its listing named.
    frames: Vec<Vec<Entry>>,
    /// For each frame, how many of its entries have been taken.
    cursors: Vec<usize>,
    stage: Stage,
    /// The library being inspected or copied.
    current: Entry,
    /// How many listings have been taken in.
    received: Ghost<nat>,
    /// The base names that those listings named.
    reported: Ghost<Set<Seq<u8>>>,
}

/// The contents of a file that may be missing.
pub open spec fn opt_contents(f: Option<Vec<u8>>) -> Option<Seq<u8>> {
    match f {
        Some(x) => Some(x@),
        None => None,
    }
}

/// Every base name that a listing reports lies in `u`.
pub open spec fn listing_within(output: Seq<u8>, u: Set<Seq<u8>>) -> bool {
    match listing(output) {
        Ok(ps) => forall|i: int|
            0 <= i < ps.len() && (#[trigger] base_name(ps[i])) is Some ==> u.contains(
                base_name(ps[i])->0,
            ),
        Err(_) => true,
    }
}

/// Every base name that an event reports lies in `u`.
pub open spec fn event_within(e: Event, u: Set<Seq<u8>>) -> bool {
    match e {
        Event::Listing { output } => listing_within(output@, u),
        _ => true,
    }
}

/// The contents that an `Event::Contents` reports, or two `None`s.
pub open spec fn event_contents(e: Event) -> (Option<Seq<u8>>, Option<Seq<u8>>) {
    match e {
        Event::Contents { source, destination } => (
            opt_contents(source),
            opt_contents(destination),
        ),
        _ => (None, None),
    }
}

/// The resolver output that an `Event::Listing` carries.
pub open spec fn event_output(e: Event) -> Seq<u8> {
    match e {
        Event::Listing { output } => output@,
        _ => Seq::empty(),
    }
}

/// A resolved path has a file name, and its copy's path fits in memory.
pub open spec fn usable(dir: Seq<u8>, p: Seq<u8>) -> bool {
    &&& base_name(p) is Some
    &&& dir.len() + base_name(p)->0.len() + 1 < usize::MAX
}

/// `p` is the first of the paths `ps` that is not usable.
pub open spec fn first_unusable(dir: Seq<u8>, ps: Seq<Seq<u8>>, p: Seq<u8>) -> bool {
    exists|i: int|
        0 <= i < ps.len() && ps[i] == p && !usable(dir, p) && forall|j: int|
            0 <= j < i ==> usable(dir, #[trigger] ps[j])
}

/// The base names of the resolved paths `ps`.
pub open spec fn listed_names(ps: Seq<Seq<u8>>) -> Set<Seq<u8>> {
    Set::new(|n: Seq<u8>| exists|i: int| 0 <= i < ps.len() && base_name(ps[i]) == Some(n))
}

/// The resolved paths of the entries of `f` from `c` on.
spec fn rest_of(f: Seq<Entry>, c: int) -> Seq<Seq<u8>> {
    f.subrange(c, f.len() as int).map_values(|e: Entry| e.source@)
}

/// The resolved paths not yet taken in the frames below `k`, the top one
/// first.
spec fn untaken(frames: Seq<Vec<Entry>>, cursors: Seq<usize>, k: int) -> Seq<Seq<u8>>
    decreases k,
{
    if k <= 0 {
        Seq::empty()
    } else {
        rest_of(frames[k - 1]@, cursors[k - 1] as int) + untaken(frames, cursors, k - 1)
    }
}

/// The path `p` is the one its base name was copied from.
pub open spec fn settled(p: Seq<u8>, names: Seq<Seq<u8>>, sources: Seq<Seq<u8>>) -> bool {
    exists|i: int|
        0 <= i < names.len() && i < sources.len() && names[i] == base_name(p)->0
            && #[trigger] sources[i] == p
}

/// The first of the paths `ps` that is not the one its base name was copied
/// from: either its base name has not been copied, or it was copied from
/// another path.
pub open spec fn next_unsettled(
    ps: Seq<Seq<u8>>,
    names: Seq<Seq<u8>>,
    sources: Seq<Seq<u8>>,
) -> Option<Seq<u8>>
    decreases ps.len(),
{
    if ps.len() == 0 {
        None
    } else if !settled(ps[0], names, sources) {
        Some(ps[0])
    } else {
        next_unsettled(ps.drop_first(), names, sources)
    }
}

/// The paths of `ps` that follow the one `next_unsettled` picks: what is
/// left to walk once that one is taken.
pub open spec fn after_next(
    ps: Seq<Seq<u8>>,
    names: Seq<Seq<u8>>,
    sources: Seq<Seq<u8>>,
) -> Seq<Seq<u8>>
    decreases ps.len(),
{
    if ps.len() == 0 {
        Seq::empty()
    } else if !settled(ps[0], names, sources) {
        ps.drop_first()
    } else {
        after_next(ps.drop_first(), names, sources)
    }
}

/// `a` comes before `b` in the lexicographic order.
pub open spec fn lex_below(a: (int, int, int), b: (int, int, int)) -> bool {
    ||| a.0 < b.0
    ||| a.0 == b.0 && a.1 < b.1
    ||| a.0 == b.0 && a.1 == b.1 && a.2 < b.2
}

proof fn lemma_untaken_agree(
    f1: Seq<Vec<Entry>>,
    c1: Seq<usize>,
    f2: Seq<Vec<Entry>>,
    c2: Seq<usize>,
    k: int,
)
    requires
        0 <= k <= f1.len(),
        k <= f2.len(),
        k <= c1.len(),
        k <= c2.len(),
        forall|i: int| 0 <= i < k ==> #[trigger] f1[i] == f2[i],
        forall|i: int| 0 <= i < k ==> #[trigger] c1[i] == c2[i],
    ensures
        untaken(f1, c1, k) == untaken(f2, c2, k),
    decreases k,
{
    if k > 0 {
        lemma_untaken_agree(f1, c1, f2, c2, k - 1);
    }
}

proof fn lemma_next_unsettled_cons(
    p: Seq<u8>,
    xs: Seq<Seq<u8>>,
    names: Seq<Seq<u8>>,
    sources: Seq<Seq<u8>>,
)
    ensures
        next_unsettled(seq![p] + xs, names, sources) == if !settled(p, names, sources) {
            Some(p)
        } else {
            next_unsettled(xs, names, sources)
        },
        after_next(seq![p] + xs, names, sources) == if !settled(p, names, sources) {
            xs
        } else {
            after_next(xs, names, sources)
        },
{
    assert((seq![p] + xs).drop_first() =~= xs);
    assert((seq![p] + xs)[0] == p);
}

/// Taking the entry under the top cursor leaves the rest of the stack.
proof fn lemma_take_top(a: Walk, b: Walk, k: int, c: int)
    requires
        a.frames == b.frames,
        a.frames@.len() == a.cursors@.len(),
        k == a.cursors@.len() - 1,
        0 <= k,
        a.cursors@[k] == c,
        c < a.frames@[k]@.len(),
        c < usize::MAX,
        b.cursors@ == a.cursors@.update(k, (c + 1) as usize),
    ensures
        a.pending_sources() == seq![a.frames@[k]@[c].source@] + b.pending_sources(),
{
    lemma_untaken_agree(a.frames@, a.cursors@, b.frames@, b.cursors@, k);
    let f = a.frames@[k]@;
    assert(rest_of(f, c) =~= seq![f[c].source@] + rest_of(f, c + 1));
    assert(a.pending_sources() == rest_of(f, c) + untaken(a.frames@, a.cursors@, k));
    assert(b.cursors@[k] == c + 1);
    assert(b.pending_sources() == rest_of(f, c + 1) + untaken(b.frames@, b.cursors@, k));
    assert(a.pending_sources() =~= seq![a.frames@[k]@[c].source@] + b.pending_sources());
}

/// Dropping a used-up top frame leaves the rest of the stack.
proof fn lemma_pop_rest(a: Walk, b: Walk)
    requires
        a.frames@.len() == a.cursors@.len(),
        a.frames@.len() > 0,
        a.cursors@.last() == a.frames@.last()@.len(),
        b.frames@ == a.frames@.drop_last(),
        b.cursors@ == a.cursors@.drop_last(),
    ensures
        a.pending_sources() == b.pending_sources(),
{
    let k = a.frames@.len() - 1;
    lemma_untaken_agree(a.frames@, a.cursors@, b.frames@, b.cursors@, k);
    assert(rest_of(a.frames@[k]@, a.cursors@[k] as int) =~= Seq::<Seq<u8>>::empty());
    assert(a.pending_sources() =~= b.pending_sources());
}

spec fn entry_ok(e: Entry, dir: Seq<u8>) -> bool {
    &&& base_name(e.source@) == Some(e.name@)
    &&& e.target@ == copy_path(dir, e.name@)
}

impl Walk {
    /// The directory that receives the copies.
    pub closed spec fn dir_spec(self) -> Seq<u8> {
        self.dir@
    }

    /// The base names copied so far, in order.
    pub closed spec fn copied_names(self) -> Seq<Seq<u8>> {
        views(self.copied@)
    }

    pub closed spec fn stage_spec(self) -> Stage {
        self.stage
    }

    /// For each copied base name, the path it was copied from.
    pub closed spec fn copied_sources(self) -> Seq<Seq<u8>> {
        views(self.sources@)
    }

    /// The library being inspected or copied: its resolved path, base name
    /// and destination.
    pub closed spec fn in_flight(self) -> (Seq<u8>, Seq<u8>, Seq<u8>) {
        (self.current.source@, self.current.name@, self.current.target@)
    }

    /// How many listings the walk has taken in.
    pub closed spec fn listings_taken(self) -> nat {
        self.received@
    }

    /// The base name `n` is named by an entry of the stack.
    closed spec fn in_frames(self, n: Seq<u8>) -> bool {
        exists|k: int, j: int|
            0 <= k < self.frames@.len() && 0 <= j < self.frames@[k]@.len()
                && #[trigger] self.frames@[k]@[j].name@ == n
    }

    /// Whether the base name `n` occurs in the walk's state.
    pub closed spec fn mentions(self, n: Seq<u8>) -> bool {
        ||| self.copied_names().contains(n)
        ||| self.in_frames(n)
        ||| ((self.stage is Contents || self.stage is Copied) && self.current.name@ == n)
    }

    /// The base names of all libraries that the listings taken in so far
    /// have named.
    pub closed spec fn reported_names(self) -> Set<Seq<u8>> {
        self.reported@
    }

    /// The base name `n` is named by an entry of the stack not yet taken.
    pub closed spec fn pending(self, n: Seq<u8>) -> bool {
        exists|k: int, j: int|
            0 <= k < self.frames@.len() && self.cursors@[k] <= j < self.frames@[k]@.len()
                && #[trigger] self.frames@[k]@[j].name@ == n
    }

    /// Every reported name is copied, waits on the stack, or is being
    /// inspected; every name in the state has been reported.
    closed spec fn complete(self) -> bool {
        &&& !(self.stage is Over) ==> forall|n: Seq<u8>| #[trigger]
            self.reported@.contains(n) ==> self.copied_names().contains(n) || self.pending(n)
                || (self.stage is Contents && self.current.name@ == n)
        &&& forall|n: Seq<u8>| #[trigger]
            self.copied_names().contains(n) ==> self.reported@.contains(n)
        &&& forall|k: int, j: int|
            0 <= k < self.frames@.len() && 0 <= j < self.frames@[k]@.len()
                ==> self.reported@.contains(#[trigger] self.frames@[k]@[j].name@)
        &&& (self.stage is Contents || self.stage is Copied) ==> self.reported@.contains(
            self.current.name@,
        )
    }

    /// The resolved paths on the stack not yet taken, in the order in which
    /// the walk will take them.
    pub closed spec fn pending_sources(self) -> Seq<Seq<u8>> {
        untaken(self.frames@, self.cursors@, self.frames@.len() as int)
    }

    /// Every base name in the walk's state lies in `u`.
    pub open spec fn within(self, u: Set<Seq<u8>>) -> bool {
        forall|n: Seq<u8>| #[trigger] self.mentions(n) ==> u.contains(n)
    }

    closed spec fn core_wf(self) -> bool {
        &&& self.frames@.len() == self.cursors@.len()
        &&& forall|k: int|
            0 <= k < self.cursors@.len() ==> #[trigger] self.cursors@[k]
                <= self.frames@[k]@.len()
        &&& forall|k: int, j: int|
            0 <= k < self.frames@.len() && 0 <= j < self.frames@[k]@.len() ==> entry_ok(
                #[trigger] self.frames@[k]@[j],
                self.dir@,
            )
        &&& self.copied_names().no_duplicates()
        &&& self.sources@.len() == self.copied@.len()
        &&& self.received@ <= self.copied@.len() + 1
    }

    /// The walk's invariant.
    pub closed spec fn wf(self) -> bool {
        &&& self.core_wf()
        &&& self.complete()
        &&& (self.stage is Listing || self.stage is Copied) ==> self.received@
            == self.copied@.len()
        &&& (self.stage is Contents || self.stage is Recheck) ==> self.received@
            == self.copied@.len() + 1
        &&& (self.stage is Contents || self.stage is Recheck || self.stage is Copied) ==> entry_ok(
            self.current,
            self.dir@,
        )
        &&& self.stage is Contents ==> !self.copied_names().contains(self.current.name@)
        &&& self.stage is Recheck ==> self.copied_names().contains(self.current.name@)
            && !settled(self.current.source@, self.copied_names(), self.copied_sources())
    }

    /// A measure of the work still to come, given that every base name the
    /// walk meets lies in `u`: the listings still to be taken, the entries
    /// on the stack, and the steps left before the next query.
    pub open spec fn rank(self, u: Set<Seq<u8>>) -> (int, int, int) {
        (
            u.len() + 1 - self.listings_taken(),
            self.pending_sources().len() as int,
            match self.stage_spec() {
                Stage::Contents => 2int,
                Stage::Recheck => 2int,
                Stage::Copied => 1int,
                _ => 0int,
            },
        )
    }
}

/// Where `name` stands among `names`, if it does.
fn find_name(names: &Vec<Vec<u8>>, name: &Vec<u8>) -> (r: Option<usize>)
    ensures
        match r {
            Some(i) => i < names@.len() && names@[i as int]@ == name@,
            None => !views(names@).contains(name@),
        },
{
    let mut i: usize = 0;
    while i < names.len()
        invariant
            i <= names@.len(),
            forall|k: int| 0 <= k < i ==> names@[k]@ != name@,
        decreases names.len() - i,
    {
        if bytes_equal(names[i].as_slice(), name.as_slice()) {
            return Some(i);
        }
        i = i + 1;
    }
    proof {
        if views(names@).contains(name@) {
            let k = choose|k: int| 0 <= k < views(names@).len() && views(names@)[k] == name@;
            assert(names@[k]@ == name@);
        }
    }
    None
}

proof fn lemma_same_mentions(a: Walk, b: Walk)
    requires
        a.copied == b.copied,
        a.frames == b.frames,
        a.stage == b.stage,
        a.current == b.current,
    ensures
        forall|n: Seq<u8>| #[trigger] a.mentions(n) == b.mentions(n),
{
}

proof fn lemma_same_pending(a: Walk, b: Walk)
    requires
        a.frames == b.frames,
        a.cursors == b.cursors,
    ensures
        forall|n: Seq<u8>| #[trigger] a.pending(n) == b.pending(n),
{
}

/// Moving the cursor of frame `k` past entry `c` loses only that entry.
proof fn lemma_step_cursor(a: Walk, b: Walk, k: int, c: int)
    requires
        a.frames == b.frames,
        a.frames@.len() == a.cursors@.len(),
        0 <= k < a.cursors@.len(),
        a.cursors@[k] == c,
        c < a.frames@[k]@.len(),
        b.cursors@ == a.cursors@.update(k, (c + 1) as usize),
    ensures
        forall|n: Seq<u8>| #[trigger] a.pending(n) ==> b.pending(n) || n == a.frames@[k]@[c].name@,
{
    assert forall|n: Seq<u8>| #[trigger] a.pending(n) implies b.pending(n) || n
        == a.frames@[k]@[c].name@ by {
        let (x, y) = choose|x: int, y: int|
            0 <= x < a.frames@.len() && a.cursors@[x] <= y < a.frames@[x]@.len()
                && #[trigger] a.frames@[x]@[y].name@ == n;
        if !(x == k && y == c) {
            assert(b.frames@[x]@[y].name@ == n);
        }
    }
}

/// Dropping a used-up top frame loses nothing pending.
proof fn lemma_pop_frame(a: Walk, b: Walk)
    requires
        a.frames@.len() == a.cursors@.len(),
        a.frames@.len() > 0,
        a.cursors@.last() >= a.frames@.last()@.len(),
        b.frames@ == a.frames@.drop_last(),
        b.cursors@ == a.cursors@.drop_last(),
    ensures
        forall|n: Seq<u8>| #[trigger] a.pending(n) ==> b.pending(n),
{
    assert forall|n: Seq<u8>| #[trigger] a.pending(n) implies b.pending(n) by {
        let (x, y) = choose|x: int, y: int|
            0 <= x < a.frames@.len() && a.cursors@[x] <= y < a.frames@[x]@.len()
                && #[trigger] a.frames@[x]@[y].name@ == n;
        assert(b.frames@[x]@[y].name@ == n);
    }
}

/// Pushing a fresh frame keeps what was pending and adds all its entries.
proof fn lemma_push_frame(a: Walk, b: Walk, entries: Seq<Entry>)
    requires
        a.frames@.len() == a.cursors@.len(),
        b.frames@ == a.frames@.push(b.frames@.last()),
        b.frames@.last()@ == entries,
        b.cursors@ == a.cursors@.push(0),
    ensures
        forall|n: Seq<u8>| #[trigger] a.pending(n) ==> b.pending(n),
        forall|j: int| 0 <= j < entries.len() ==> b.pending(#[trigger] entries[j].name@),
{
    assert forall|n: Seq<u8>| #[trigger] a.pending(n) implies b.pending(n) by {
        let (x, y) = choose|x: int, y: int|
            0 <= x < a.frames@.len() && a.cursors@[x] <= y < a.frames@[x]@.len()
                && #[trigger] a.frames@[x]@[y].name@ == n;
        assert(b.frames@[x]@[y].name@ == n);
    }
    assert forall|j: int| 0 <= j < entries.len() implies b.pending(#[trigger] entries[j].name@) by {
        let x = a.frames@.len() as int;
        assert(b.frames@[x]@[j].name@ == entries[j].name@);
    }
}

/// A walk with no name in its state needs no more than `u.len()` copies.
proof fn lemma_copied_bounded(w: Walk, u: Set<Seq<u8>>)
    requires
        w.wf(),
        u.finite(),
        w.within(u),
    ensures
        w.copied_names().len() <= u.len(),
{
    let s = w.copied_names();
    s.unique_seq_to_set();
    assert forall|n: Seq<u8>| s.to_set().contains(n) implies u.contains(n) by {
        assert(w.mentions(n));
    }
    vstd::set_lib::lemma_len_subset(s.to_set(), u);
}

impl Walk {
    /// Starts a walk over the dependencies of `root`, whose copies go into
    /// `dir`. The first action queries `root`.
    pub fn new(root: Vec<u8>, dir: Vec<u8>) -> (r: (Walk, Action))
        ensures
            r.0.wf(),
            r.0.dir_spec() == dir@,
            r.0.copied_names() == Seq::<Seq<u8>>::empty(),
            r.0.stage_spec() is Listing,
            r.0.listings_taken() == 0,
            r.0.reported_names() == Set::<Seq<u8>>::empty(),
            r.0.pending_sources() == Seq::<Seq<u8>>::empty(),
            forall|n: Seq<u8>| !r.0.mentions(n),
            r.1 == (Action::Query { binary: root }),
    {
        let w = Walk {
            dir,
            copied: Vec::new(),
            sources: Vec::new(),
            frames: Vec::new(),
            cursors: Vec::new(),
            stage: Stage::Listing,
            current: Entry { source: Vec::new(), name: Vec::new(), target: Vec::new() },
            received: Ghost(0),
            reported: Ghost(Set::empty()),
        };
        proof {
            assert(w.copied_names() =~= Seq::<Seq<u8>>::empty());
        }
        (w, Action::Query { binary: root })
    }

    /// Takes the next library on the stack that is not the one its base name
    /// was copied from, dropping the frames that are used up; the walk is
    /// done when none is left.
    fn advance(self) -> (r: (Walk, Action))
        requires
            self.core_wf(),
            self.complete(),
            self.stage is Listing,
            self.received@ == self.copied@.len() + 1,
        ensures
            r.0.wf(),
            r.0.dir == self.dir,
            r.0.copied == self.copied,
            r.0.sources == self.sources,
            r.0.received == self.received,
            r.0.reported == self.reported,
            forall|n: Seq<u8>| #[trigger] r.0.mentions(n) ==> self.mentions(n),
            match r.1 {
                Action::Done => {
                    &&& r.0.stage is Over
                    &&& r.0.copied_names().to_set() == r.0.reported_names()
                    &&& next_unsettled(
                        self.pending_sources(),
                        self.copied_names(),
                        self.copied_sources(),
                    ) is None
                },
                Action::Inspect { source, destination } => {
                    &&& r.0.stage is Contents || r.0.stage is Recheck
                    &&& source@ == r.0.current.source@
                    &&& destination@ == r.0.current.target@
                    &&& next_unsettled(
                        self.pending_sources(),
                        self.copied_names(),
                        self.copied_sources(),
                    ) == Some(source@)
                    &&& r.0.pending_sources().len() < self.pending_sources().len()
                    &&& r.0.pending_sources() == after_next(
                        self.pending_sources(),
                        self.copied_names(),
                        self.copied_sources(),
                    )
                },
                _ => false,
            },
    {
        let mut w = self;
        loop
            invariant
                w.core_wf(),
                w.complete(),
                w.stage is Listing,
                w.dir == self.dir,
                w.copied == self.copied,
                w.sources == self.sources,
                w.received == self.received,
                w.reported == self.reported,
                w.received@ == w.copied@.len() + 1,
                next_unsettled(w.pending_sources(), w.copied_names(), w.copied_sources())
                    == next_unsettled(
                    self.pending_sources(),
                    self.copied_names(),
                    self.copied_sources(),
                ),
                w.pending_sources().len() <= self.pending_sources().len(),
                after_next(w.pending_sources(), w.copied_names(), w.copied_sources()) == after_next(
                    self.pending_sources(),
                    self.copied_names(),
                    self.copied_sources(),
                ),
                forall|n: Seq<u8>| #[trigger] w.mentions(n) ==> self.mentions(n),
            decreases w.cursors@.len(), if w.cursors@.len() > 0 {
                w.frames@[w.cursors@.len() - 1]@.len() - w.cursors@[w.cursors@.len() - 1]
            } else {
                0
            },
        {
            let n = w.cursors.len();
            if n == 0 {
                proof {
                    assert forall|m: Seq<u8>| #[trigger]
                        w.copied_names().to_set().contains(m) == w.reported@.contains(m) by {
                        if w.reported@.contains(m) {
                            assert(!w.pending(m));
                        }
                    }
                    assert(w.copied_names().to_set() =~= w.reported@);
                    assert(w.pending_sources() =~= Seq::<Seq<u8>>::empty());
                }
                w.stage = Stage::Over;
                return (w, Action::Done);
            }
            let k = n - 1;
            let c = w.cursors[k];
            if c >= w.frames[k].len() {
                let ghost before = w;
                w.frames.pop();
                w.cursors.pop();
                proof {
                    assert forall|m: Seq<u8>| #[trigger] w.mentions(m)
                        implies before.mentions(m)
                    by {
                        assert(before.mentions(m));
                    }
                    lemma_pop_frame(before, w);
                    lemma_pop_rest(before, w);
                    assert forall|m: Seq<u8>| #[trigger] w.reported@.contains(m)
                        implies w.copied_names().contains(m) || w.pending(m)
                    by {
                        assert(before.reported@.contains(m));
                    }
                    assert forall|a: int, b: int|
                        0 <= a < w.frames@.len() && 0 <= b < w.frames@[a]@.len()
                            implies w.reported@.contains(#[trigger] w.frames@[a]@[b].name@) by {
                        assert(before.frames@[a]@[b].name@ == w.frames@[a]@[b].name@);
                    }
                }
            } else {
                let ghost unmoved = w;
                let ghost e = w.frames@[k as int]@[c as int];
                w.cursors.set(k, c + 1);
                proof {
                    lemma_same_mentions(unmoved, w);
                    lemma_step_cursor(unmoved, w, k as int, c as int);
                    lemma_take_top(unmoved, w, k as int, c as int);
                    assert(entry_ok(e, unmoved.dir@));
                    lemma_next_unsettled_cons(
                        e.source@,
                        w.pending_sources(),
                        w.copied_names(),
                        w.copied_sources(),
                    );
                    assert(w.core_wf());
                }
                let found = find_name(&w.copied, &w.frames[k][c].name);
                let kept = match found {
                    None => false,
                    Some(i) => bytes_equal(
                        w.sources[i].as_slice(),
                        w.frames[k][c].source.as_slice(),
                    ),
                };
                proof {
                    let names = w.copied_names();
                    let sources = w.copied_sources();
                    if settled(e.source@, names, sources) {
                        let j = choose|j: int|
                            0 <= j < names.len() && j < sources.len() && names[j] == base_name(
                                e.source@,
                            )->0 && #[trigger] sources[j] == e.source@;
                        assert(names[j] == e.name@);
                        match found {
                            Some(i) => {
                                assert(names[i as int] == e.name@);
                                assert(i as int == j);
                            },
                            None => {
                                assert(names.contains(e.name@));
                            },
                        }
                    }
                    match found {
                        Some(i) => {
                            if kept {
                                assert(sources[i as int] == e.source@);
                            }
                        },
                        None => {},
                    }
                    assert(kept == settled(e.source@, names, sources));
                }
                if !kept {
                    let ghost before = w;
                    let source = copy_bytes(w.frames[k][c].source.as_slice());
                    let name = copy_bytes(w.frames[k][c].name.as_slice());
                    let target = copy_bytes(w.frames[k][c].target.as_slice());
                    let out_source = copy_bytes(source.as_slice());
                    let out_target = copy_bytes(target.as_slice());
                    proof {
                        assert(before.mentions(name@));
                        assert(w.reported@.contains(name@));
                    }
                    w.current = Entry { source, name, target };
                    w.stage = match found {
                        None => Stage::Contents,
                        Some(_) => Stage::Recheck,
                    };
                    proof {
                        assert forall|m: Seq<u8>| #[trigger] w.mentions(m) implies self.mentions(
                            m,
                        ) by {
                            if w.current.name@ == m {
                                assert(before.mentions(m));
                            }
                            assert(before.mentions(m));
                            assert(unmoved.mentions(m));
                        }
                        lemma_same_pending(before, w);
                        match found {
                            Some(i) => {
                                assert(w.copied_names()[i as int] == w.current.name@);
                            },
                            None => {},
                        }
                        assert forall|m: Seq<u8>| #[trigger] w.reported@.contains(m)
                            implies w.copied_names().contains(m) || w.pending(m) || (w.stage
                                is Contents && w.current.name@ == m)
                        by {
                            assert(unmoved.reported@.contains(m));
                        }
                    }
                    return (w, Action::Inspect { source: out_source, destination: out_target });
                }
                proof {
                    assert forall|m: Seq<u8>| #[trigger] w.mentions(m) implies self.mentions(m) by {
                        assert(unmoved.mentions(m));
                    }
                    assert forall|m: Seq<u8>| #[trigger] w.reported@.contains(m)
                        implies w.copied_names().contains(m) || w.pending(m)
                    by {
                        assert(unmoved.reported@.contains(m));
                        if m == e.name@ {
                            match found {
                                Some(i) => {
                                    assert(w.copied_names()[i as int] == m);
                                },
                                None => {},
                            }
                        }
                    }
                }
            }
        }
    }

    /// The base names copied so far, in the order of their copies.
    pub fn copied(&self) -> (r: &Vec<Vec<u8>>)
        ensures
            views(r@) == self.copied_names(),
    {
        &self.copied
    }

    /// Ends the walk on `error`.
    fn fail(self, error: WalkError) -> (r: (Walk, Action))
        requires
            self.wf(),
        ensures
            r.0.wf(),
            r.0.dir == self.dir,
            r.0.copied == self.copied,
            r.0.sources == self.sources,
            r.0.received == self.received,
            r.0.reported == self.reported,
            r.0.frames == self.frames,
            r.0.cursors == self.cursors,
            r.0.stage is Over,
            forall|n: Seq<u8>| #[trigger] r.0.mentions(n) ==> self.mentions(n),
            r.1 == (Action::Fail { error }),
    {
        let mut w = self;
        w.stage = Stage::Over;
        (w, Action::Fail { error })
    }

    /// Takes in the listing of the binary last queried: its libraries become
    /// a new frame on top of the stack, and the walk goes on from there.
    fn take_listing(self, output: Vec<u8>) -> (r: (Walk, Action))
        requires
            self.wf(),
            self.stage is Listing,
        ensures
            r.0.wf(),
            r.0.dir == self.dir,
            r.0.copied == self.copied,
            r.0.sources == self.sources,
            (r.1 is Inspect || r.1 is Done) ==> listing(output@) is Ok && r.0.reported_names()
                == self.reported_names().union(listed_names(listing(output@)->Ok_0)),
            r.1 is Done ==> r.0.copied_names().to_set() == r.0.reported_names(),
            !(r.1 is Inspect || r.1 is Done) ==> r.0.reported == self.reported,
            !(r.1 is Inspect || r.1 is Done) ==> r.0.frames == self.frames && r.0.cursors
                == self.cursors,
            r.1 is Done ==> next_unsettled(
                listing(output@)->Ok_0 + self.pending_sources(),
                self.copied_names(),
                self.copied_sources(),
            ) is None,
            match r.1 {
                Action::Inspect { source, .. } => {
                    &&& next_unsettled(
                        listing(output@)->Ok_0 + self.pending_sources(),
                        self.copied_names(),
                        self.copied_sources(),
                    ) == Some(source@)
                    &&& r.0.pending_sources() == after_next(
                        listing(output@)->Ok_0 + self.pending_sources(),
                        self.copied_names(),
                        self.copied_sources(),
                    )
                },
                _ => true,
            },
            match r.1 {
                Action::Inspect { source, destination } => {
                    &&& r.0.stage is Contents || r.0.stage is Recheck
                    &&& source@ == r.0.in_flight().0
                    &&& destination@ == r.0.in_flight().2
                },
                Action::Done => r.0.stage is Over,
                Action::Fail { error: WalkError::Malformed { line } } => {
                    &&& r.0.stage is Over
                    &&& listing(output@) == Err::<Seq<Seq<u8>>, Seq<u8>>(line@)
                },
                Action::Fail { error: WalkError::NoFileName { path } } => {
                    &&& r.0.stage is Over
                    &&& listing(output@) is Ok
                    &&& first_unusable(self.dir@, listing(output@)->Ok_0, path@)
                },
                _ => false,
            },
            listing(output@) is Err ==> r.1 matches Action::Fail {
                error: WalkError::Malformed { .. },
            },
            forall|u: Set<Seq<u8>>|
                u.finite() && self.within(u) && listing_within(output@, u) ==> {
                    &&& r.0.within(u)
                    &&& r.1 is Inspect ==> 0 <= r.0.rank(u).0 && lex_below(
                        r.0.rank(u),
                        self.rank(u),
                    )
                },
    {
        let paths = match parse_listing(output.as_slice()) {
            Err(m) => {
                return self.fail(WalkError::Malformed { line: m.line });
            },
            Ok(paths) => paths,
        };
        let ghost ps = views(paths@);
        let mut entries: Vec<Entry> = Vec::new();
        let mut i: usize = 0;
        while i < paths.len()
            invariant
                self.wf(),
                ps == views(paths@),
                listing(output@) == Ok::<Seq<Seq<u8>>, Seq<u8>>(ps),
                i <= paths@.len(),
                entries@.len() == i,
                forall|j: int| 0 <= j < i ==> usable(self.dir@, #[trigger] ps[j]),
                forall|j: int|
                    0 <= j < i ==> entry_ok(#[trigger] entries@[j], self.dir@)
                        && entries@[j].source@ == ps[j],
            decreases paths.len() - i,
        {
            let name = match file_name(paths[i].as_slice()) {
                None => {
                    let path = copy_bytes(paths[i].as_slice());
                    proof {
                        assert(ps[i as int] == path@);
                    }
                    return self.fail(WalkError::NoFileName { path });
                },
                Some(name) => name,
            };
            if self.dir.len() >= usize::MAX - 1 || name.len() >= usize::MAX - 1 - self.dir.len() {
                let path = copy_bytes(paths[i].as_slice());
                proof {
                    assert(ps[i as int] == path@);
                }
                return self.fail(WalkError::NoFileName { path });
            }
            let target = join(self.dir.as_slice(), name.as_slice());
            let source = copy_bytes(paths[i].as_slice());
            entries.push(Entry { source, name, target });
            i = i + 1;
        }
        let mut w = self;
        let ghost pushed = entries@;
        w.frames.push(entries);
        w.cursors.push(0);
        w.received = Ghost((self.received@ + 1) as nat);
        w.reported = Ghost(self.reported@.union(listed_names(ps)));
        proof {
            lemma_push_frame(self, w, pushed);
            assert forall|m: Seq<u8>| #[trigger] w.reported@.contains(m)
                implies w.copied_names().contains(m) || w.pending(m)
            by {
                if self.reported@.contains(m) {
                } else {
                    let i = choose|i: int| 0 <= i < ps.len() && base_name(ps[i]) == Some(m);
                    assert(pushed[i].name@ == m);
                }
            }
            assert forall|a: int, b: int|
                0 <= a < w.frames@.len() && 0 <= b < w.frames@[a]@.len()
                    implies w.reported@.contains(#[trigger] w.frames@[a]@[b].name@) by {
                if a < self.frames@.len() {
                    assert(self.frames@[a]@[b].name@ == w.frames@[a]@[b].name@);
                } else {
                    assert(w.frames@[a]@ == pushed);
                    assert(entry_ok(pushed[b], self.dir@));
                    assert(listed_names(ps).contains(pushed[b].name@));
                }
            }
            assert(w.complete());
            lemma_untaken_agree(
                w.frames@,
                w.cursors@,
                self.frames@,
                self.cursors@,
                self.frames@.len() as int,
            );
            assert(rest_of(pushed, 0) =~= ps);
            assert(w.pending_sources() =~= ps + self.pending_sources());
            assert forall|k: int, j: int|
                0 <= k < w.frames@.len() && 0 <= j < w.frames@[k]@.len() implies entry_ok(
                #[trigger] w.frames@[k]@[j],
                w.dir@,
            ) by {
                if k < self.frames@.len() {
                    assert(entry_ok(self.frames@[k]@[j], self.dir@));
                }
            }
            assert forall|k: int| 0 <= k < w.cursors@.len() implies #[trigger] w.cursors@[k]
                <= w.frames@[k]@.len() by {
                if k < self.cursors@.len() {
                    assert(self.cursors@[k] <= self.frames@[k]@.len());
                }
            }
            assert(w.core_wf());
        }
        let ghost mid = w;
        let (w2, a) = w.advance();
        proof {
            assert forall|u: Set<Seq<u8>>|
                u.finite() && self.within(u) && listing_within(output@, u) implies w2.within(u)
                && (a is Inspect ==> 0 <= w2.rank(u).0 && lex_below(w2.rank(u), self.rank(u))) by {
                assert forall|m: Seq<u8>| #[trigger] w2.mentions(m) implies u.contains(m) by {
                    assert(mid.mentions(m));
                    if exists|a: int, b: int|
                        0 <= a < mid.frames@.len() && 0 <= b < mid.frames@[a]@.len()
                            && #[trigger] mid.frames@[a]@[b].name@ == m {
                        let (a, b) = choose|a: int, b: int|
                            0 <= a < mid.frames@.len() && 0 <= b < mid.frames@[a]@.len()
                                && #[trigger] mid.frames@[a]@[b].name@ == m;
                        if a < self.frames@.len() {
                            assert(self.frames@[a]@[b].name@ == m);
                            assert(self.mentions(m));
                        } else {
                            assert(mid.frames@[a]@ == pushed);
                            assert(entry_ok(pushed[b], self.dir@));
                            assert(base_name(ps[b]) is Some);
                        }
                    } else {
                        assert(self.mentions(m));
                    }
                }
                lemma_copied_bounded(self, u);
            }
        }
        (w2, a)
    }

    /// Takes what the caller observed after the last action and returns the
    /// next one.
    ///
    /// - After `Query`, a listing: the libraries it names are pushed in
    ///   order, and the walk goes on with the first library on the stack
    ///   that is not the very one its base name was copied from. A library
    ///   whose base name was copied from the same path is skipped. A
    ///   malformed line or a path without a file name ends the walk.
    /// - After `Inspect` of a library whose base name is new, the contents
    ///   of the library and of the file at its destination: when they are
    ///   compatible the library is copied and its base name and path
    ///   recorded; otherwise the walk ends on a collision, before anything
    ///   is copied over the destination.
    /// - After `Inspect` of a library whose base name was copied from
    ///   another path, the contents of both: when they are compatible the
    ///   library is skipped like the others (neither copied nor queried
    ///   again) and the walk goes on; otherwise it ends on a collision.
    /// - After `Copy`, the copy itself is queried.
    /// - Any other event ends the walk.
    pub fn resume(self, event: Event) -> (r: (Walk, Action))
        requires
            self.wf(),
        ensures
            r.0.wf(),
            r.0.dir_spec() == self.dir_spec(),
            match r.1 {
                Action::Copy { source, destination } => {
                    &&& self.stage_spec() is Contents
                    &&& event is Contents
                    &&& compatible(event_contents(event).0, event_contents(event).1)
                    &&& source@ == self.in_flight().0
                    &&& destination@ == self.in_flight().2
                    &&& base_name(source@) == Some(self.in_flight().1)
                    &&& destination@ == copy_path(self.dir_spec(), self.in_flight().1)
                    &&& !self.copied_names().contains(self.in_flight().1)
                    &&& r.0.copied_names() == self.copied_names().push(self.in_flight().1)
                    &&& r.0.copied_sources() == self.copied_sources().push(source@)
                    &&& r.0.stage_spec() is Copied
                    &&& r.0.in_flight() == self.in_flight()
                },
                _ => r.0.copied_names() == self.copied_names() && r.0.copied_sources()
                    == self.copied_sources(),
            },
            match r.1 {
                Action::Query { binary } => {
                    &&& self.stage_spec() is Copied
                    &&& binary@ == self.in_flight().2
                    &&& r.0.stage_spec() is Listing
                },
                Action::Inspect { source, destination } => {
                    &&& self.stage_spec() is Listing || self.stage_spec() is Recheck
                    &&& r.0.stage_spec() is Contents || r.0.stage_spec() is Recheck
                    &&& source@ == r.0.in_flight().0
                    &&& destination@ == r.0.in_flight().2
                    &&& base_name(source@) == Some(r.0.in_flight().1)
                    &&& destination@ == copy_path(self.dir_spec(), r.0.in_flight().1)
                    &&& (r.0.stage_spec() is Contents <==> !r.0.copied_names().contains(
                        r.0.in_flight().1,
                    ))
                    &&& !settled(source@, r.0.copied_names(), r.0.copied_sources())
                    &&& r.0.reported_names().contains(r.0.in_flight().1)
                },
                Action::Fail { error: WalkError::Collision { source, destination } } => {
                    &&& source@ == self.in_flight().0
                    &&& destination@ == self.in_flight().2
                },
                _ => true,
            },
            r.1 is Done || r.1 is Fail ==> r.0.stage_spec() is Over,
            r.1 is Done ==> r.0.copied_names().to_set() == r.0.reported_names(),
            self.stage_spec() is Listing && event is Listing ==> match r.1 {
                Action::Inspect { source, .. } => {
                    &&& next_unsettled(
                        listing(event_output(event))->Ok_0 + self.pending_sources(),
                        self.copied_names(),
                        self.copied_sources(),
                    ) == Some(source@)
                    &&& r.0.pending_sources() == after_next(
                        listing(event_output(event))->Ok_0 + self.pending_sources(),
                        self.copied_names(),
                        self.copied_sources(),
                    )
                },
                Action::Done => next_unsettled(
                    listing(event_output(event))->Ok_0 + self.pending_sources(),
                    self.copied_names(),
                    self.copied_sources(),
                ) is None,
                _ => true,
            },
            self.stage_spec() is Recheck && event is Contents && compatible(
                event_contents(event).0,
                event_contents(event).1,
            ) ==> match r.1 {
                Action::Inspect { source, .. } => {
                    &&& next_unsettled(
                        self.pending_sources(),
                        self.copied_names(),
                        self.copied_sources(),
                    ) == Some(source@)
                    &&& r.0.pending_sources() == after_next(
                        self.pending_sources(),
                        self.copied_names(),
                        self.copied_sources(),
                    )
                },
                Action::Done => next_unsettled(
                    self.pending_sources(),
                    self.copied_names(),
                    self.copied_sources(),
                ) is None,
                _ => false,
            },
            !(self.stage_spec() is Listing && event is Listing) && !(self.stage_spec() is Recheck
                && event is Contents) ==> r.0.pending_sources() == self.pending_sources(),
            if self.stage_spec() is Listing && event is Listing && (r.1 is Inspect || r.1 is Done) {
                &&& listing(event_output(event)) is Ok
                &&& r.0.reported_names() == self.reported_names().union(
                    listed_names(listing(event_output(event))->Ok_0),
                )
            } else {
                r.0.reported_names() == self.reported_names()
            },
            self.stage_spec() is Contents && event is Contents ==> if compatible(
                event_contents(event).0,
                event_contents(event).1,
            ) {
                r.1 is Copy
            } else {
                r.1 matches Action::Fail { error: WalkError::Collision { .. } }
            },
            self.stage_spec() is Recheck && event is Contents && !compatible(
                event_contents(event).0,
                event_contents(event).1,
            ) ==> r.1 matches Action::Fail { error: WalkError::Collision { .. } },
            self.stage_spec() is Copied && event is Copied ==> r.1 is Query,
            self.stage_spec() is Listing && event is Listing ==> match listing(
                event_output(event),
            ) {
                Err(l) => match r.1 {
                    Action::Fail { error: WalkError::Malformed { line } } => line@ == l,
                    _ => false,
                },
                Ok(ps) => {
                    &&& (forall|i: int| 0 <= i < ps.len() ==> usable(self.dir_spec(), ps[i]))
                        ==> (r.1 is Inspect || r.1 is Done)
                    &&& match r.1 {
                        Action::Fail { error: WalkError::NoFileName { path } } => first_unusable(
                            self.dir_spec(),
                            ps,
                            path@,
                        ),
                        _ => r.1 is Inspect || r.1 is Done,
                    }
                },
            },
            !((self.stage_spec() is Listing && event is Listing) || ((self.stage_spec() is Contents
                || self.stage_spec() is Recheck) && event is Contents) || (self.stage_spec()
                is Copied && event is Copied)) ==> (r.1 matches Action::Fail {
                error: WalkError::OutOfTurn,
            }),
            forall|u: Set<Seq<u8>>|
                u.finite() && self.within(u) && event_within(event, u) ==> {
                    &&& r.0.within(u)
                    &&& (r.1 is Query || r.1 is Inspect || r.1 is Copy) ==> 0 <= r.0.rank(u).0
                        && lex_below(r.0.rank(u), self.rank(u))
                },
    {
        let ghost ev = event;
        match event {
            Event::Listing { output } => {
                let turn = match self.stage {
                    Stage::Listing => true,
                    _ => false,
                };
                if !turn {
                    return self.fail(WalkError::OutOfTurn);
                }
                self.take_listing(output)
            },
            Event::Contents { source, destination } => {
                let turn = match self.stage {
                    Stage::Contents => true,
                    Stage::Recheck => true,
                    _ => false,
                };
                let recheck = match self.stage {
                    Stage::Recheck => true,
                    _ => false,
                };
                if !turn {
                    return self.fail(WalkError::OutOfTurn);
                }
                let a: Option<&[u8]> = match &source {
                    Some(v) => Some(v.as_slice()),
                    None => None,
                };
                let b: Option<&[u8]> = match &destination {
                    Some(v) => Some(v.as_slice()),
                    None => None,
                };
                let ok = are_compatible(a, b);
                let out_source = copy_bytes(self.current.source.as_slice());
                let out_target = copy_bytes(self.current.target.as_slice());
                if !ok {
                    return self.fail(
                        WalkError::Collision { source: out_source, destination: out_target },
                    );
                }
                if recheck {
                    let mut w = self;
                    w.stage = Stage::Listing;
                    proof {
                        lemma_same_pending(self, w);
                        assert forall|m: Seq<u8>| #[trigger] w.mentions(m) implies self.mentions(
                            m,
                        ) by {
                            assert(w.copied_names().contains(m) || w.in_frames(m));
                        }
                        assert forall|m: Seq<u8>| #[trigger] w.reported@.contains(m)
                            implies w.copied_names().contains(m) || w.pending(m)
                        by {
                            assert(self.reported@.contains(m));
                        }
                        assert forall|k: int, j: int|
                            0 <= k < w.frames@.len() && 0 <= j < w.frames@[k]@.len()
                                implies entry_ok(#[trigger] w.frames@[k]@[j], w.dir@)
                        by {
                            assert(entry_ok(self.frames@[k]@[j], self.dir@));
                        }
                        assert forall|a: int, b: int|
                            0 <= a < w.frames@.len() && 0 <= b < w.frames@[a]@.len()
                                implies w.reported@.contains(#[trigger] w.frames@[a]@[b].name@)
                        by {
                            assert(self.frames@[a]@[b].name@ == w.frames@[a]@[b].name@);
                        }
                    }
                    let ghost mid = w;
                    let (w2, act) = w.advance();
                    proof {
                        assert forall|u: Set<Seq<u8>>|
                            u.finite() && self.within(u) && event_within(ev, u) implies w2.within(
                                u,
                            ) && (act is Inspect ==> 0 <= w2.rank(u).0 && lex_below(
                                w2.rank(u),
                                self.rank(u),
                            )) by {
                            assert forall|m: Seq<u8>| #[trigger] w2.mentions(m) implies u.contains(
                                m,
                            ) by {
                                assert(mid.mentions(m));
                                assert(self.mentions(m));
                            }
                            lemma_copied_bounded(self, u);
                        }
                    }
                    return (w2, act);
                }
                let mut w = self;
                let name = copy_bytes(w.current.name.as_slice());
                let from = copy_bytes(w.current.source.as_slice());
                w.copied.push(name);
                w.sources.push(from);
                w.stage = Stage::Copied;
                proof {
                    assert(w.copied_sources() =~= self.copied_sources().push(self.current.source@));
                    assert(w.copied_names() =~= self.copied_names().push(self.current.name@));
                    assert forall|m: Seq<u8>| #[trigger] w.mentions(m) implies self.mentions(m) by {
                        if w.copied_names().contains(m) {
                            let k = choose|k: int|
                                0 <= k < w.copied_names().len() && w.copied_names()[k] == m;
                            if k < self.copied_names().len() {
                                assert(self.copied_names()[k] == m);
                            }
                        }
                    }
                    assert forall|k: int, j: int|
                        0 <= k < w.frames@.len() && 0 <= j < w.frames@[k]@.len() implies entry_ok(
                        #[trigger] w.frames@[k]@[j],
                        w.dir@,
                    ) by {
                        assert(entry_ok(self.frames@[k]@[j], self.dir@));
                    }
                    lemma_same_pending(self, w);
                    assert forall|m: Seq<u8>| #[trigger] w.reported@.contains(m)
                        implies w.copied_names().contains(m) || w.pending(m)
                    by {
                        assert(self.reported@.contains(m));
                        if self.current.name@ == m {
                            assert(w.copied_names()[self.copied_names().len() as int] == m);
                        }
                        if self.copied_names().contains(m) {
                            let k = choose|k: int|
                                0 <= k < self.copied_names().len() && self.copied_names()[k] == m;
                            assert(w.copied_names()[k] == m);
                        }
                    }
                    assert forall|m: Seq<u8>| #[trigger] w.copied_names().contains(m)
                        implies w.reported@.contains(m)
                    by {
                        let k = choose|k: int|
                            0 <= k < w.copied_names().len() && w.copied_names()[k] == m;
                        if k < self.copied_names().len() {
                            assert(self.copied_names()[k] == m);
                            assert(self.copied_names().contains(m));
                        } else {
                            assert(m == self.current.name@);
                        }
                    }
                    assert forall|a: int, b: int|
                        0 <= a < w.frames@.len() && 0 <= b < w.frames@[a]@.len()
                            implies w.reported@.contains(#[trigger] w.frames@[a]@[b].name@) by {
                        assert(self.frames@[a]@[b].name@ == w.frames@[a]@[b].name@);
                    }
                    assert(w.wf());
                    assert forall|u: Set<Seq<u8>>|
                        u.finite() && self.within(u) && event_within(ev, u) implies w.within(u)
                        && 0 <= w.rank(u).0 && lex_below(w.rank(u), self.rank(u)) by {
                        lemma_copied_bounded(w, u);
                    }
                }
                (w, Action::Copy { source: out_source, destination: out_target })
            },
            Event::Copied => {
                let turn = match self.stage {
                    Stage::Copied => true,
                    _ => false,
                };
                if !turn {
                    return self.fail(WalkError::OutOfTurn);
                }
                let binary = copy_bytes(self.current.target.as_slice());
                let mut w = self;
                w.stage = Stage::Listing;
                proof {
                    assert forall|m: Seq<u8>| #[trigger] w.mentions(m) implies self.mentions(m) by {
                    }
                    assert forall|k: int, j: int|
                        0 <= k < w.frames@.len() && 0 <= j < w.frames@[k]@.len() implies entry_ok(
                        #[trigger] w.frames@[k]@[j],
                        w.dir@,
                    ) by {
                        assert(entry_ok(self.frames@[k]@[j], self.dir@));
                    }
                    lemma_same_pending(self, w);
                    assert forall|m: Seq<u8>| #[trigger] w.reported@.contains(m)
                        implies w.copied_names().contains(m) || w.pending(m)
                    by {
                        assert(self.reported@.contains(m));
                    }
                    assert forall|a: int, b: int|
                        0 <= a < w.frames@.len() && 0 <= b < w.frames@[a]@.len()
                            implies w.reported@.contains(#[trigger] w.frames@[a]@[b].name@) by {
                        assert(self.frames@[a]@[b].name@ == w.frames@[a]@[b].name@);
                    }
                    assert(w.wf());
                    assert forall|u: Set<Seq<u8>>|
                        u.finite() && self.within(u) && event_within(ev, u) implies w.within(u)
                        && 0 <= w.rank(u).0 && lex_below(w.rank(u), self.rank(u)) by {
                        lemma_copied_bounded(self, u);
                    }
                }
                (w, Action::Query { binary })
            },
        }
    }
}

/// No base name is ever copied twice in one walk. When the copied names are
/// the reported ones, as `resume` promises with `Done`, every base name that
/// some listing named, however many times and by however many libraries,
/// has been copied exactly once.
pub proof fn lemma_copied_once(w: Walk, n: Seq<u8>)
    requires
        w.wf(),
    ensures
        w.copied_names().no_duplicates(),
        w.copied_names().to_set() == w.reported_names() && w.reported_names().contains(n) ==> (
        exists|i: int|
            0 <= i < w.copied_names().len() && w.copied_names()[i] == n && forall|j: int|
                0 <= j < w.copied_names().len() && w.copied_names()[j] == n ==> j == i),
{
    if w.copied_names().to_set() == w.reported_names() && w.reported_names().contains(n) {
        assert(w.copied_names().to_set().contains(n));
        let i = choose|i: int| 0 <= i < w.copied_names().len() && w.copied_names()[i] == n;
        assert(forall|j: int|
            0 <= j < w.copied_names().len() && w.copied_names()[j] == n ==> j == i);
    }
}

/// The rank of a walk whose base names lie in a finite set `u` is a triple
/// of natural numbers, its first at most `u.len() + 1`. Every `resume` that
/// asks for more work lowers the rank lexicographically, and no such triples
/// descend forever: a walk over a graph with finitely many base names ends,
/// even when the graph has cycles.
pub proof fn lemma_rank_bounds(w: Walk, u: Set<Seq<u8>>)
    requires
        w.wf(),
        u.finite(),
        w.within(u),
    ensures
        0 <= w.rank(u).0 <= u.len() + 1,
        0 <= w.rank(u).1,
        0 <= w.rank(u).2 <= 2,
{
    lemma_copied_bounded(w, u);
}

} // verus!
