//! Paths in the AFC namespace: splitting into components, normalising, joining.
use std::collections::VecDeque;
use vstd::prelude::*;
use vstd::string::{StrSliceExecFns, StringExecFns};

verus! {

/// Why a path could not be resolved.
#[derive(Debug, PartialEq, Eq)]
pub enum AfcPathError {
    /// The path, or a link target, holds a NUL character.
    NulByte,
    /// More symbolic links than the limit were followed for the requested path.
    TooManySymlinks(String),
    /// The link at this path was already followed once.
    SymlinkCycle(String),
    /// The link at this path reported no target.
    MissingLinkTarget(String),
}

/// The pieces of `s` between occurrences of `sep`, as splitting a string gives them: one more
/// piece than there are separators, empty pieces included.
pub open spec fn split_on<T>(s: Seq<T>, sep: T) -> Seq<Seq<T>>
    decreases s.len(),
{
    if s.len() == 0 {
        seq![Seq::empty()]
    } else {
        let prev = split_on(s.drop_last(), sep);
        if s.last() == sep {
            prev.push(Seq::empty())
        } else {
            prev.update(prev.len() - 1, prev.last().push(s.last()))
        }
    }
}

pub proof fn lemma_split_on_len<T>(s: Seq<T>, sep: T)
    ensures
        split_on(s, sep).len() >= 1,
    decreases s.len(),
{
    if s.len() > 0 {
        lemma_split_on_len(s.drop_last(), sep);
    }
}

/// One path component applied to the components so far: empty and `.` leave them, `..`
/// drops the last one if there is one, anything else is appended.
pub open spec fn apply_component(stack: Seq<Seq<char>>, c: Seq<char>) -> Seq<Seq<char>> {
    if c.len() == 0 || c == seq!['.'] {
        stack
    } else if c == seq!['.', '.'] {
        if stack.len() > 0 {
            stack.drop_last()
        } else {
            stack
        }
    } else {
        stack.push(c)
    }
}

pub open spec fn apply_components(stack: Seq<Seq<char>>, cs: Seq<Seq<char>>) -> Seq<Seq<char>>
    decreases cs.len(),
{
    if cs.len() == 0 {
        stack
    } else {
        apply_component(apply_components(stack, cs.drop_last()), cs.last())
    }
}

pub open spec fn is_absolute(p: Seq<char>) -> bool {
    p.len() > 0 && p[0] == '/'
}

/// The components of `p`, read from `base` when `p` is relative and from the root otherwise.
pub open spec fn normalized_components(base: Seq<Seq<char>>, p: Seq<char>) -> Seq<Seq<char>> {
    apply_components(
        if is_absolute(p) {
            Seq::empty()
        } else {
            base
        },
        split_on(p, '/'),
    )
}

/// The characters of each string.
pub open spec fn strings_view(s: Seq<String>) -> Seq<Seq<char>> {
    Seq::new(s.len(), |i: int| s[i]@)
}

/// The components joined by `/`.
pub open spec fn join_with_slash(cs: Seq<Seq<char>>) -> Seq<char>
    decreases cs.len(),
{
    if cs.len() == 0 {
        Seq::empty()
    } else if cs.len() == 1 {
        cs[0]
    } else {
        join_with_slash(cs.drop_last()) + seq!['/'] + cs.last()
    }
}

/// The absolute path made of the components.
pub open spec fn path_from_components(cs: Seq<Seq<char>>) -> Seq<char> {
    seq!['/'] + join_with_slash(cs)
}

fn contains_nul(path: &str) -> (r: bool)
    ensures
        r == path@.contains('\0'),
{
    let n = path.unicode_len();
    let mut k: usize = 0;
    while k < n
        invariant
            n == path@.len(),
            k <= n,
            forall|j: int| 0 <= j < k ==> path@[j] != '\0',
        decreases n - k,
    {
        if path.get_char(k) == '\0' {
            return true;
        }
        k += 1;
    }
    false
}

/// Applies the component `path[start..end]`.
fn apply_piece(components: &mut VecDeque<String>, path: &str, start: usize, end: usize)
    requires
        start <= end <= path@.len(),
    ensures
        strings_view(final(components)@) == apply_component(
            strings_view(old(components)@),
            path@.subrange(start as int, end as int),
        ),
{
    let ghost c = path@.subrange(start as int, end as int);
    let ghost before = strings_view(components@);
    let len = end - start;
    if len == 0 {
        proof {
            assert(c.len() == 0);
        }
    } else if len == 1 && path.get_char(start) == '.' {
        proof {
            assert(c =~= seq!['.']);
        }
    } else if len == 2 && path.get_char(start) == '.' && path.get_char(start + 1) == '.' {
        proof {
            assert(c =~= seq!['.', '.']);
            assert(c != seq!['.']);
        }
        let _ = components.pop_back();
        proof {
            assert(strings_view(components@) =~= apply_component(before, c));
        }
    } else {
        proof {
            if len == 1 {
                assert(c[0] != '.');
                assert(c != seq!['.']);
            }
            if len == 2 {
                assert(c[0] != '.' || c[1] != '.');
                assert(c != seq!['.', '.']);
            }
        }
        let piece = path.substring_char(start, end).to_owned();
        proof {
            assert(piece@ == c);
            assert(c.len() != 0);
            assert(c != seq!['.']);
            assert(c != seq!['.', '.']);
            assert(apply_component(before, c) == before.push(c));
        }
        let ghost old_components = components@;
        components.push_back(piece);
        proof {
            assert(components@ == old_components.push(piece));
            assert(strings_view(components@) =~= before.push(c));
        }
    }
}

/// Splits `path` into components and normalises them: empty and `.` components are dropped,
/// `..` drops the previous component (never going above the root), and a relative path is read
/// from the components `base`.  A path holding a NUL character is refused.
pub fn normalize_afc_path_components(base: &[String], path: &str) -> (r: Result<
    VecDeque<String>,
    AfcPathError,
>)
    ensures
        path@.contains('\0') ==> r matches Err(AfcPathError::NulByte),
        !path@.contains('\0') ==> (r matches Ok(q) && strings_view(q@) == normalized_components(
            strings_view(base@),
            path@,
        )),
{
    if contains_nul(path) {
        return Err(AfcPathError::NulByte);
    }
    let n = path.unicode_len();
    let mut components: VecDeque<String> = VecDeque::new();
    let absolute = n > 0 && path.get_char(0) == '/';
    if !absolute {
        let mut j: usize = 0;
        while j < base.len()
            invariant
                j <= base@.len(),
                strings_view(components@) == strings_view(base@).subrange(0, j as int),
            decreases base@.len() - j,
        {
            let item = base[j].clone();
            proof {
                assert(item == base@[j as int]);
            }
            let ghost before = components@;
            components.push_back(item);
            j += 1;
            proof {
                assert(strings_view(components@) =~= strings_view(before).push(base@[j - 1]@));
                assert(strings_view(base@).subrange(0, j as int) =~= strings_view(base@).subrange(
                    0,
                    j - 1,
                ).push(base@[j - 1]@));
            }
        }
        proof {
            assert(strings_view(base@).subrange(0, base@.len() as int) =~= strings_view(base@));
        }
    } else {
        proof {
            assert(strings_view(components@) =~= Seq::<Seq<char>>::empty());
        }
    }
    let ghost s0 = strings_view(components@);
    let ghost p = path@;
    proof {
        assert(p.take(0) =~= Seq::<char>::empty());
        assert(split_on(p.take(0), '/').drop_last() =~= Seq::<Seq<char>>::empty());
        assert(p.subrange(0, 0) =~= Seq::<char>::empty());
    }
    let mut start: usize = 0;
    let mut i: usize = 0;
    while i < n
        invariant
            n == p.len(),
            p == path@,
            start <= i <= n,
            split_on(p.take(i as int), '/').last() == p.subrange(start as int, i as int),
            strings_view(components@) == apply_components(s0, split_on(p.take(i as int), '/').drop_last()),
        decreases n - i,
    {
        let ghost prev = split_on(p.take(i as int), '/');
        proof {
            lemma_split_on_len(p.take(i as int), '/');
            assert(p.take(i + 1).drop_last() =~= p.take(i as int));
        }
        if path.get_char(i) == '/' {
            apply_piece(&mut components, path, start, i);
            start = i + 1;
            proof {
                let next = split_on(p.take(i + 1), '/');
                assert(next == prev.push(Seq::empty()));
                assert(next.drop_last() =~= prev);
                assert(prev =~= prev.drop_last().push(prev.last()));
                assert(p.subrange(start as int, i + 1) =~= Seq::<char>::empty());
            }
        } else {
            proof {
                let next = split_on(p.take(i + 1), '/');
                assert(next.drop_last() =~= prev.drop_last());
                assert(p.subrange(start as int, i + 1) =~= p.subrange(start as int, i as int).push(
                    p[i as int],
                ));
            }
        }
        i += 1;
    }
    proof {
        let whole = split_on(p.take(n as int), '/');
        lemma_split_on_len(p.take(n as int), '/');
        assert(p.take(n as int) =~= p);
        assert(whole =~= whole.drop_last().push(whole.last()));
    }
    apply_piece(&mut components, path, start, n);
    Ok(components)
}

/// The absolute path `/` followed by the components joined by `/`.
pub fn afc_path_from_components(components: &[String]) -> (r: String)
    ensures
        r@ == path_from_components(strings_view(components@)),
{
    let mut path = String::new();
    proof {
        reveal_strlit("/");
    }
    path.append("/");
    let ghost cs = strings_view(components@);
    let mut i: usize = 0;
    while i < components.len()
        invariant
            i <= components@.len(),
            cs == strings_view(components@),
            path@ == seq!['/'] + join_with_slash(cs.take(i as int)),
        decreases components@.len() - i,
    {
        proof {
            reveal_strlit("/");
            assert(cs.take(i + 1).drop_last() =~= cs.take(i as int));
        }
        if i > 0 {
            path.append("/");
        }
        path.append(components[i].as_str());
        proof {
            if i == 0 {
                assert(cs.take(1) =~= seq![cs[0]]);
            }
            assert(path@ =~= seq!['/'] + join_with_slash(cs.take(i + 1)));
        }
        i += 1;
    }
    proof {
        assert(cs.take(components@.len() as int) =~= cs);
    }
    path
}

/// The most symbolic links that one resolution follows.
pub const MAX_SYMLINKS: usize = 40;

/// The state of resolving the symbolic links in a path, one component at a time: the device is
/// asked about each candidate path in turn, and its answers drive the resolution.
pub struct PathResolver {
    state: ResolverState,
}

struct ResolverState {
    requested_path: String,
    pending: VecDeque<String>,
    resolved: Vec<String>,
    visited_links: Vec<String>,
}

/// The mathematical state of a [`PathResolver`].
pub struct ResolverModel {
    /// The path the caller asked about.
    pub requested: Seq<char>,
    /// Components still to be looked at, in order.
    pub pending: Seq<Seq<char>>,
    /// Components already known not to be links.
    pub resolved: Seq<Seq<char>>,
    /// The links followed so far, by their full paths.
    pub visited: Seq<Seq<char>>,
    /// How many links were followed.
    pub followed: nat,
}

/// What the resolution needs next.
#[derive(Debug, PartialEq, Eq)]
pub enum ResolveStep {
    /// The file information of this path is needed.
    Query(String),
    /// Resolution is complete, and this is the resolved path.
    Done(String),
}

/// Why resolution stopped, as a value.
pub enum ResolveFailure {
    NulByte,
    TooManySymlinks(Seq<char>),
    SymlinkCycle(Seq<char>),
    MissingLinkTarget(Seq<char>),
}

pub open spec fn failure_of(e: AfcPathError) -> ResolveFailure {
    match e {
        AfcPathError::NulByte => ResolveFailure::NulByte,
        AfcPathError::TooManySymlinks(p) => ResolveFailure::TooManySymlinks(p@),
        AfcPathError::SymlinkCycle(p) => ResolveFailure::SymlinkCycle(p@),
        AfcPathError::MissingLinkTarget(p) => ResolveFailure::MissingLinkTarget(p@),
    }
}

/// The kind that file information reports for a symbolic link.
pub open spec fn symlink_kind() -> Seq<char> {
    "S_IFLNK"@
}

/// The path that is asked about next: the resolved components and the next pending one.
pub open spec fn candidate_path(m: ResolverModel) -> Seq<char> {
    path_from_components(m.resolved.push(m.pending[0]))
}

/// One answer taken into the state: `kind` is the file kind of the candidate path and `target`
/// its link target.  A non-link component is resolved; a link is followed, at most
/// [`MAX_SYMLINKS`] times and never twice, by putting its normalised target in front of the
/// remaining components and starting over from the root.
pub open spec fn resolve_step(
    m: ResolverModel,
    kind: Seq<char>,
    target: Option<Seq<char>>,
) -> Result<ResolverModel, ResolveFailure> {
    if m.pending.len() == 0 {
        Ok(m)
    } else if kind != symlink_kind() {
        Ok(ResolverModel { pending: m.pending.drop_first(), resolved: m.resolved.push(m.pending[0]), ..m })
    } else if m.followed + 1 > MAX_SYMLINKS {
        Err(ResolveFailure::TooManySymlinks(m.requested))
    } else if m.visited.contains(candidate_path(m)) {
        Err(ResolveFailure::SymlinkCycle(candidate_path(m)))
    } else {
        match target {
            None => Err(ResolveFailure::MissingLinkTarget(candidate_path(m))),
            Some(t) => if t.contains('\0') {
                Err(ResolveFailure::NulByte)
            } else {
                let base = if is_absolute(t) {
                    Seq::empty()
                } else {
                    m.resolved
                };
                Ok(
                    ResolverModel {
                        requested: m.requested,
                        pending: normalized_components(base, t) + m.pending.drop_first(),
                        resolved: Seq::empty(),
                        visited: m.visited.push(candidate_path(m)),
                        followed: m.followed + 1,
                    },
                )
            },
        }
    }
}

/// The state invariant: each followed link is recorded once, and no more than the limit were
/// followed.
pub open spec fn resolver_wf(m: ResolverModel) -> bool {
    &&& m.followed == m.visited.len()
    &&& m.followed <= MAX_SYMLINKS
    &&& forall|i: int, j: int| 0 <= i < j < m.visited.len() ==> m.visited[i] != m.visited[j]
}

impl View for PathResolver {
    type V = ResolverModel;

    closed spec fn view(&self) -> ResolverModel {
        self.state@
    }
}

impl View for ResolverState {
    type V = ResolverModel;

    closed spec fn view(&self) -> ResolverModel {
        ResolverModel {
            requested: self.requested_path@,
            pending: strings_view(self.pending@),
            resolved: strings_view(self.resolved@),
            visited: strings_view(self.visited_links@),
            followed: self.visited_links@.len(),
        }
    }
}

fn same_text(a: &str, b: &str) -> (r: bool)
    ensures
        r == (a@ == b@),
{
    a.to_owned() == b.to_owned()
}

impl PathResolver {
    #[verifier::type_invariant]
    closed spec fn well_formed(self) -> bool {
        resolver_wf(self.state@)
    }

    /// Starts resolving `path`: its components, normalised from the root.
    pub fn new(path: &str) -> (r: Result<PathResolver, AfcPathError>)
        ensures
            path@.contains('\0') ==> r matches Err(AfcPathError::NulByte),
            !path@.contains('\0') ==> (r matches Ok(res) && res@ == ResolverModel {
                requested: path@,
                pending: normalized_components(Seq::empty(), path@),
                resolved: Seq::empty(),
                visited: Seq::empty(),
                followed: 0,
            }),
            r matches Ok(res) ==> resolver_wf(res@),
    {
        let empty: Vec<String> = Vec::new();
        let pending = match normalize_afc_path_components(empty.as_slice(), path) {
            Ok(p) => p,
            Err(e) => return Err(e),
        };
        let state = ResolverState {
            requested_path: path.to_owned(),
            pending,
            resolved: Vec::new(),
            visited_links: Vec::new(),
        };
        proof {
            assert(strings_view(empty@) =~= Seq::<Seq<char>>::empty());
            assert(strings_view(state.resolved@) =~= Seq::<Seq<char>>::empty());
            assert(strings_view(state.visited_links@) =~= Seq::<Seq<char>>::empty());
        }
        Ok(PathResolver { state })
    }

    /// What is needed next: the file information of the next candidate path, or nothing more.
    pub fn next_step(&self) -> (r: ResolveStep)
        ensures
            self@.pending.len() == 0 ==> (r matches ResolveStep::Done(p) && p@ == path_from_components(
                self@.resolved,
            )),
            self@.pending.len() > 0 ==> (r matches ResolveStep::Query(c) && c@ == candidate_path(
                self@,
            )),
    {
        if self.state.pending.len() == 0 {
            ResolveStep::Done(afc_path_from_components(self.state.resolved.as_slice()))
        } else {
            ResolveStep::Query(self.state.candidate())
        }
    }

    /// Takes in the file kind and link target that the device reported for the candidate path.
    pub fn on_file_info(&mut self, st_ifmt: &str, st_link_target: Option<String>) -> (r: Result<
        (),
        AfcPathError,
    >)
        ensures
            match resolve_step(
                old(self)@,
                st_ifmt@,
                match st_link_target {
                    Some(t) => Some(t@),
                    None => None,
                },
            ) {
                Ok(m) => r is Ok && final(self)@ == m,
                Err(f) => r matches Err(e) && failure_of(e) == f && final(self)@ == old(self)@,
            },
            resolver_wf(final(self)@),
    {
        proof {
            use_type_invariant(&*self);
        }
        let mut state = ResolverState::blank();
        std::mem::swap(&mut self.state, &mut state);
        let r = state.step(st_ifmt, st_link_target);
        std::mem::swap(&mut self.state, &mut state);
        r
    }
}

impl ResolverState {
    fn blank() -> (r: ResolverState)
        ensures
            r@ == (ResolverModel {
                requested: Seq::empty(),
                pending: Seq::empty(),
                resolved: Seq::empty(),
                visited: Seq::empty(),
                followed: 0,
            }),
            resolver_wf(r@),
    {
        let r = ResolverState {
            requested_path: String::new(),
            pending: VecDeque::new(),
            resolved: Vec::new(),
            visited_links: Vec::new(),
        };
        proof {
            assert(r.requested_path@ =~= Seq::<char>::empty());
            assert(strings_view(r.pending@) =~= Seq::<Seq<char>>::empty());
            assert(strings_view(r.resolved@) =~= Seq::<Seq<char>>::empty());
            assert(strings_view(r.visited_links@) =~= Seq::<Seq<char>>::empty());
        }
        r
    }

    fn candidate(&self) -> (r: String)
        requires
            self@.pending.len() > 0,
        ensures
            r@ == candidate_path(self@),
    {
        let mut parts: Vec<String> = self.resolved.clone();
        let next = self.pending[0].clone();
        parts.push(next);
        proof {
            assert(strings_view(parts@) =~= self@.resolved.push(self@.pending[0]));
        }
        afc_path_from_components(parts.as_slice())
    }

    fn step(&mut self, st_ifmt: &str, st_link_target: Option<String>) -> (r: Result<
        (),
        AfcPathError,
    >)
        requires
            resolver_wf(old(self)@),
        ensures
            match resolve_step(
                old(self)@,
                st_ifmt@,
                match st_link_target {
                    Some(t) => Some(t@),
                    None => None,
                },
            ) {
                Ok(m) => r is Ok && final(self)@ == m,
                Err(f) => r matches Err(e) && failure_of(e) == f && final(self)@ == old(self)@,
            },
            resolver_wf(final(self)@),
    {
        let ghost m = self@;
        if self.pending.len() == 0 {
            return Ok(());
        }
        if !same_text(st_ifmt, "S_IFLNK") {
            let component = match self.pending.pop_front() {
                Some(c) => c,
                None => return Ok(()),
            };
            self.resolved.push(component);
            proof {
                assert(self@.pending =~= m.pending.drop_first());
                assert(self@.resolved =~= m.resolved.push(m.pending[0]));
            }
            return Ok(());
        }
        if self.visited_links.len() >= MAX_SYMLINKS {
            return Err(AfcPathError::TooManySymlinks(self.requested_path.clone()));
        }
        let candidate = self.candidate();
        if self.was_visited(&candidate) {
            return Err(AfcPathError::SymlinkCycle(candidate));
        }
        let target = match st_link_target {
            Some(t) => t,
            None => return Err(AfcPathError::MissingLinkTarget(candidate)),
        };
        let absolute = target.as_str().unicode_len() > 0 && target.as_str().get_char(0) == '/';
        let no_components: Vec<String> = Vec::new();
        let base = if absolute {
            no_components.as_slice()
        } else {
            self.resolved.as_slice()
        };
        let mut expanded = match normalize_afc_path_components(base, target.as_str()) {
            Ok(e) => e,
            Err(e) => return Err(e),
        };
        let _ = self.pending.pop_front();
        let ghost front = expanded@;
        let ghost rest = self.pending@;
        expanded.append(&mut self.pending);
        self.pending = expanded;
        self.resolved.clear();
        self.visited_links.push(candidate);
        proof {
            assert(strings_view(no_components@) =~= Seq::<Seq<char>>::empty());
            assert(self.pending@ == front + rest);
            assert(strings_view(self.pending@) =~= strings_view(front) + strings_view(rest));
            assert(strings_view(rest) =~= m.pending.drop_first());
            assert(self@.resolved =~= Seq::<Seq<char>>::empty());
            assert(self@.visited =~= m.visited.push(candidate_path(m)));
        }
        Ok(())
    }

    fn was_visited(&self, candidate: &String) -> (r: bool)
        ensures
            r == self@.visited.contains(candidate@),
    {
        let mut i: usize = 0;
        while i < self.visited_links.len()
            invariant
                i <= self.visited_links@.len(),
                forall|j: int| 0 <= j < i ==> self.visited_links@[j]@ != candidate@,
            decreases self.visited_links@.len() - i,
        {
            if self.visited_links[i] == *candidate {
                proof {
                    assert(self@.visited[i as int] == candidate@);
                }
                return true;
            }
            i += 1;
        }
        proof {
            if self@.visited.contains(candidate@) {
                let k = choose|k: int| 0 <= k < self@.visited.len() && self@.visited[k] == candidate@;
                assert(self.visited_links@[k]@ == candidate@);
            }
        }
        false
    }
}

/// Each answer either resolves one more pending component or follows one more link, and at
/// most [`MAX_SYMLINKS`] links are followed: resolution always comes to an end.
pub proof fn lemma_resolution_progress(m: ResolverModel, kind: Seq<char>, target: Option<Seq<char>>)
    requires
        resolver_wf(m),
        m.pending.len() > 0,
    ensures
        resolve_step(m, kind, target) matches Ok(m2) ==> {
            ||| m2.followed == m.followed && m2.pending.len() < m.pending.len()
            ||| m.followed < m2.followed <= MAX_SYMLINKS
        },
{
}

/// An answer that reports any kind but a symbolic link (a directory, a regular file, anything
/// else) resolves the path asked about: the next pending component moves to the end of the
/// resolved ones, so the resolved path becomes the candidate path, and the links followed stay
/// as they were.
pub proof fn lemma_non_link_resolved(m: ResolverModel, kind: Seq<char>, target: Option<Seq<char>>)
    requires
        m.pending.len() > 0,
        kind != "S_IFLNK"@,
    ensures
        resolve_step(m, kind, target) matches Ok(m2) && {
            &&& m2.resolved == m.resolved.push(m.pending[0])
            &&& path_from_components(m2.resolved) == candidate_path(m)
            &&& m2.pending == m.pending.subrange(1, m.pending.len() as int)
            &&& m2.visited == m.visited
            &&& m2.followed == m.followed
            &&& m2.requested == m.requested
        },
{
    assert(m.pending.drop_first() =~= m.pending.subrange(1, m.pending.len() as int));
}

/// An answer that reports a symbolic link: past the limit of followed links it fails, a link
/// already followed is a cycle, a link without a target or with a NUL in it fails, and
/// otherwise the target is followed.  A relative target is read from the link's directory (the
/// resolved components), an absolute one from the root; its components go in front of the
/// remaining ones, resolution starts over from the root, and the link is recorded as followed.
pub proof fn lemma_link_followed(m: ResolverModel, target: Option<Seq<char>>)
    requires
        resolver_wf(m),
        m.pending.len() > 0,
    ensures
        ({
            let r = resolve_step(m, "S_IFLNK"@, target);
            let c = path_from_components(m.resolved.push(m.pending[0]));
            let fresh = m.followed < MAX_SYMLINKS && !m.visited.contains(c);
            &&& m.followed == MAX_SYMLINKS ==> r == Err::<ResolverModel, ResolveFailure>(
                ResolveFailure::TooManySymlinks(m.requested),
            )
            &&& m.followed < MAX_SYMLINKS && m.visited.contains(c) ==> r == Err::<
                ResolverModel,
                ResolveFailure,
            >(ResolveFailure::SymlinkCycle(c))
            &&& fresh && target is None ==> r == Err::<ResolverModel, ResolveFailure>(
                ResolveFailure::MissingLinkTarget(c),
            )
            &&& target matches Some(t) ==> (fresh && t.contains('\0') ==> r == Err::<
                ResolverModel,
                ResolveFailure,
            >(ResolveFailure::NulByte))
            &&& target matches Some(t) ==> (fresh && !t.contains('\0') ==> (r matches Ok(m2) && {
                &&& m2.pending == normalized_components(
                    if t.len() > 0 && t[0] == '/' {
                        Seq::empty()
                    } else {
                        m.resolved
                    },
                    t,
                ) + m.pending.subrange(1, m.pending.len() as int)
                &&& m2.resolved.len() == 0
                &&& m2.visited == m.visited.push(c)
                &&& m2.followed == m.followed + 1
                &&& m2.requested == m.requested
            }))
        }),
{
    assert(m.pending.drop_first() =~= m.pending.subrange(1, m.pending.len() as int));
}

/// A link is never followed twice: the state invariant holds after every answer.
pub proof fn lemma_resolution_invariant(m: ResolverModel, kind: Seq<char>, target: Option<Seq<char>>)
    requires
        resolver_wf(m),
    ensures
        resolve_step(m, kind, target) matches Ok(m2) ==> resolver_wf(m2),
{
}

/// A component that normalisation keeps as it is: not empty, not `.` or `..`, without `/`.
pub open spec fn is_plain_component(c: Seq<char>) -> bool {
    c.len() > 0 && c != seq!['.'] && c != seq!['.', '.'] && !c.contains('/')
}

/// Appending text without separators extends the last piece.
proof fn lemma_split_on_extend<T>(s: Seq<T>, t: Seq<T>, sep: T)
    requires
        !t.contains(sep),
    ensures
        split_on(s + t, sep) == split_on(s, sep).update(
            split_on(s, sep).len() - 1,
            split_on(s, sep).last() + t,
        ),
    decreases t.len(),
{
    lemma_split_on_len(s, sep);
    if t.len() == 0 {
        assert(s + t =~= s);
        assert(split_on(s, sep).last() + t =~= split_on(s, sep).last());
        assert(split_on(s, sep).update(split_on(s, sep).len() - 1, split_on(s, sep).last())
            =~= split_on(s, sep));
    } else {
        let t0 = t.drop_last();
        assert(!t0.contains(sep)) by {
            if t0.contains(sep) {
                let k = choose|k: int| 0 <= k < t0.len() && t0[k] == sep;
                assert(t[k] == sep);
            }
        }
        assert(t.last() != sep) by {
            assert(t[t.len() - 1] == t.last());
        }
        lemma_split_on_extend(s, t0, sep);
        lemma_split_on_len(s + t0, sep);
        assert((s + t).drop_last() =~= s + t0);
        assert((s + t).last() == t.last());
        let p = split_on(s, sep);
        let prev = split_on(s + t0, sep);
        assert(prev == p.update(p.len() - 1, p.last() + t0));
        assert(split_on(s + t, sep) == prev.update(prev.len() - 1, prev.last().push(t.last())));
        assert(prev.len() == p.len());
        assert(prev.last() == p.last() + t0);
        assert((p.last() + t0).push(t.last()) =~= p.last() + t);
        assert(split_on(s + t, sep) =~= p.update(p.len() - 1, p.last() + t));
    }
}

/// The pieces of a path built from components are an empty piece and then the components.
proof fn lemma_split_joined(cs: Seq<Seq<char>>)
    requires
        cs.len() > 0,
        forall|i: int| 0 <= i < cs.len() ==> is_plain_component(#[trigger] cs[i]),
    ensures
        split_on(path_from_components(cs), '/') == seq![Seq::<char>::empty()] + cs,
    decreases cs.len(),
{
    let slash = seq!['/'];
    assert(slash.drop_last() =~= Seq::<char>::empty());
    assert(split_on(Seq::<char>::empty(), '/') == seq![Seq::<char>::empty()]);
    assert(split_on(slash, '/') == seq![Seq::<char>::empty()].push(Seq::<char>::empty()));
    assert(split_on(slash, '/') =~= seq![Seq::<char>::empty(), Seq::<char>::empty()]);
    if cs.len() == 1 {
        assert(is_plain_component(cs[0]));
        lemma_split_on_extend(slash, cs[0], '/');
        assert(path_from_components(cs) == slash + cs[0]);
        assert(split_on(path_from_components(cs), '/') =~= seq![Seq::<char>::empty()] + cs);
    } else {
        let init = cs.drop_last();
        lemma_split_joined(init);
        let x = path_from_components(init);
        let xs = x + seq!['/'];
        assert(xs.drop_last() =~= x);
        assert(split_on(xs, '/') == split_on(x, '/').push(Seq::empty()));
        assert(is_plain_component(cs.last()));
        lemma_split_on_extend(xs, cs.last(), '/');
        assert(path_from_components(cs) =~= xs + cs.last());
        assert(split_on(path_from_components(cs), '/') =~= seq![Seq::<char>::empty()] + cs);
    }
}

/// Plain components after an empty piece are appended as they are.
proof fn lemma_apply_plain(stack: Seq<Seq<char>>, cs: Seq<Seq<char>>)
    requires
        forall|i: int| 0 <= i < cs.len() ==> is_plain_component(#[trigger] cs[i]),
    ensures
        apply_components(stack, seq![Seq::<char>::empty()] + cs) == stack + cs,
    decreases cs.len(),
{
    let xs = seq![Seq::<char>::empty()] + cs;
    if cs.len() == 0 {
        let one = seq![Seq::<char>::empty()];
        assert(one.drop_last() =~= Seq::<Seq<char>>::empty());
        assert(xs =~= one);
        assert(apply_components(stack, Seq::<Seq<char>>::empty()) == stack);
        assert(apply_components(stack, one) == apply_component(stack, Seq::<char>::empty()));
        assert(stack + cs =~= stack);
    } else {
        let init = cs.drop_last();
        lemma_apply_plain(stack, init);
        assert(xs.drop_last() =~= seq![Seq::<char>::empty()] + init);
        assert(xs.last() == cs.last());
        assert(is_plain_component(cs.last()));
        assert(apply_components(stack, xs) == apply_component(stack + init, cs.last()));
        assert(stack + cs =~= (stack + init).push(cs.last()));
    }
}

/// A path built from plain components normalises back to those components, whatever the base.
pub proof fn lemma_normalize_joined(base: Seq<Seq<char>>, cs: Seq<Seq<char>>)
    requires
        forall|i: int| 0 <= i < cs.len() ==> is_plain_component(#[trigger] cs[i]),
    ensures
        normalized_components(base, path_from_components(cs)) == cs,
{
    let p = path_from_components(cs);
    assert(p[0] == '/');
    if cs.len() == 0 {
        let slash = seq!['/'];
        assert(p =~= slash);
        assert(slash.drop_last() =~= Seq::<char>::empty());
        assert(split_on(Seq::<char>::empty(), '/') == seq![Seq::<char>::empty()]);
        assert(split_on(slash, '/') == seq![Seq::<char>::empty()].push(Seq::<char>::empty()));
        let two = seq![Seq::<char>::empty(), Seq::<char>::empty()];
        assert(split_on(slash, '/') =~= two);
        assert(two.drop_last() =~= seq![Seq::<char>::empty()] + cs);
        lemma_apply_plain(Seq::empty(), cs);
        assert(apply_components(Seq::empty(), two.drop_last()) =~= Seq::<Seq<char>>::empty());
        assert(apply_components(Seq::empty(), two) == Seq::<Seq<char>>::empty());
        assert(cs =~= Seq::<Seq<char>>::empty());
    } else {
        lemma_split_joined(cs);
        lemma_apply_plain(Seq::empty(), cs);
        assert(Seq::<Seq<char>>::empty() + cs =~= cs);
    }
}


/// No piece of a split holds the separator.
pub proof fn lemma_split_pieces_lack_sep<T>(s: Seq<T>, sep: T)
    ensures
        forall|i: int|
            0 <= i < split_on(s, sep).len() ==> !(#[trigger] split_on(s, sep)[i]).contains(sep),
    decreases s.len(),
{
    lemma_split_on_len(s, sep);
    if s.len() > 0 {
        let prev = split_on(s.drop_last(), sep);
        lemma_split_pieces_lack_sep(s.drop_last(), sep);
        lemma_split_on_len(s.drop_last(), sep);
        if s.last() != sep {
            let last = prev.last().push(s.last());
            assert(!last.contains(sep)) by {
                if last.contains(sep) {
                    let k = choose|k: int| 0 <= k < last.len() && last[k] == sep;
                    if k < prev.last().len() {
                        assert(prev[prev.len() - 1][k] == sep);
                    }
                }
            }
        } else {
            assert(!Seq::<T>::empty().contains(sep));
        }
    }
}

pub open spec fn all_plain(cs: Seq<Seq<char>>) -> bool {
    forall|i: int| 0 <= i < cs.len() ==> is_plain_component(#[trigger] cs[i])
}

/// Applying components without `/` to plain components leaves plain components.
proof fn lemma_apply_keeps_plain(stack: Seq<Seq<char>>, cs: Seq<Seq<char>>)
    requires
        all_plain(stack),
        forall|i: int| 0 <= i < cs.len() ==> !(#[trigger] cs[i]).contains('/'),
    ensures
        all_plain(apply_components(stack, cs)),
    decreases cs.len(),
{
    if cs.len() > 0 {
        let init = cs.drop_last();
        assert forall|i: int| 0 <= i < init.len() implies !(#[trigger] init[i]).contains('/') by {
            assert(init[i] == cs[i]);
        }
        lemma_apply_keeps_plain(stack, init);
        let st = apply_components(stack, init);
        let c = cs.last();
        assert(!c.contains('/')) by {
            assert(cs[cs.len() - 1] == c);
        }
        let next = apply_component(st, c);
        assert forall|i: int| 0 <= i < next.len() implies is_plain_component(#[trigger] next[i]) by {
            if c.len() == 0 || c == seq!['.'] {
            } else if c == seq!['.', '.'] {
                if st.len() > 0 {
                    assert(next[i] == st[i]);
                }
            } else {
                if i < st.len() {
                    assert(next[i] == st[i]);
                }
            }
        }
    }
}

/// Normalising from plain components gives plain components.
pub proof fn lemma_normalized_plain(base: Seq<Seq<char>>, p: Seq<char>)
    requires
        all_plain(base),
    ensures
        all_plain(normalized_components(base, p)),
{
    lemma_split_pieces_lack_sep(p, '/');
    let start = if is_absolute(p) {
        Seq::<Seq<char>>::empty()
    } else {
        base
    };
    lemma_apply_keeps_plain(start, split_on(p, '/'));
}

/// Normalisation is idempotent: the path made of normalised components normalises back to
/// them, from any base, whenever the base that they were read from held plain components.
pub proof fn lemma_normalize_idempotent(base: Seq<Seq<char>>, p: Seq<char>, other: Seq<Seq<char>>)
    requires
        all_plain(base),
    ensures
        normalized_components(other, path_from_components(normalized_components(base, p)))
            == normalized_components(base, p),
{
    lemma_normalized_plain(base, p);
    lemma_normalize_joined(other, normalized_components(base, p));
}


/// The pieces joined again, with the separator between each two.
pub open spec fn join_on<T>(pieces: Seq<Seq<T>>, sep: T) -> Seq<T>
    decreases pieces.len(),
{
    if pieces.len() == 0 {
        Seq::empty()
    } else if pieces.len() == 1 {
        pieces[0]
    } else {
        join_on(pieces.drop_last(), sep) + seq![sep] + pieces.last()
    }
}

proof fn lemma_join_extend_last<T>(p: Seq<Seq<T>>, sep: T, c: T)
    requires
        p.len() >= 1,
    ensures
        join_on(p.update(p.len() - 1, p.last().push(c)), sep) == join_on(p, sep).push(c),
{
    let q = p.update(p.len() - 1, p.last().push(c));
    if p.len() > 1 {
        assert(q.drop_last() =~= p.drop_last());
        assert(join_on(q, sep) =~= join_on(p, sep).push(c));
    }
}

/// Splitting loses nothing: joining the pieces with the separator gives back the sequence, and
/// since no piece holds the separator (`lemma_split_pieces_lack_sep`), the pieces are exactly
/// the runs between separators.
pub proof fn lemma_split_join<T>(s: Seq<T>, sep: T)
    ensures
        join_on(split_on(s, sep), sep) == s,
    decreases s.len(),
{
    if s.len() > 0 {
        let init = s.drop_last();
        lemma_split_join(init, sep);
        lemma_split_on_len(init, sep);
        let prev = split_on(init, sep);
        assert(s =~= init.push(s.last()));
        if s.last() == sep {
            let next = prev.push(Seq::<T>::empty());
            assert(next.drop_last() =~= prev);
            assert(join_on(next, sep) =~= join_on(prev, sep) + seq![sep]);
        } else {
            lemma_join_extend_last(prev, sep, s.last());
        }
    }
}


/// Appending one more component to a non-empty path: an empty component or `.` changes
/// nothing, `..` drops the last component (at the root it stays there), and any other component
/// is appended.
pub proof fn lemma_normalize_append(base: Seq<Seq<char>>, p: Seq<char>, c: Seq<char>)
    requires
        p.len() > 0,
        !c.contains('/'),
    ensures
        ({
            let before = normalized_components(base, p);
            let after = normalized_components(base, p + seq!['/'] + c);
            &&& c.len() == 0 || c == seq!['.'] ==> after == before
            &&& c == seq!['.', '.'] ==> after == if before.len() > 0 {
                before.drop_last()
            } else {
                before
            }
            &&& is_plain_component(c) ==> after == before.push(c)
        }),
{
    let ps = p + seq!['/'];
    let q = p + seq!['/'] + c;
    assert(q[0] == p[0]);
    assert(ps.drop_last() =~= p);
    assert(ps.last() == '/');
    let xs = split_on(p, '/');
    assert(split_on(ps, '/') == xs.push(Seq::<char>::empty()));
    lemma_split_on_extend(ps, c, '/');
    assert(Seq::<char>::empty() + c =~= c);
    let ys = split_on(q, '/');
    assert(ys =~= xs.push(c)) by {
        assert(split_on(ps, '/').update(split_on(ps, '/').len() - 1, split_on(ps, '/').last() + c)
            =~= xs.push(c));
    }
    assert(ys.drop_last() =~= xs);
    assert(ys.last() == c);
}


/// A relative path is read from the base, an absolute one from the root: one plain component
/// on its own is appended to the base, and after a leading `/` it is all there is.
pub proof fn lemma_normalize_start(base: Seq<Seq<char>>, c: Seq<char>)
    requires
        is_plain_component(c),
    ensures
        normalized_components(base, c) == base.push(c),
        normalized_components(base, seq!['/'] + c) == seq![c],
{
    let e = Seq::<char>::empty();
    lemma_split_on_extend(e, c, '/');
    assert(e + c =~= c);
    assert(split_on(c, '/') =~= seq![c]);
    assert(seq![c].drop_last() =~= Seq::<Seq<char>>::empty());
    let slash = seq!['/'];
    assert(slash.drop_last() =~= e);
    assert(split_on(slash, '/') =~= seq![e, e]);
    lemma_split_on_extend(slash, c, '/');
    assert(split_on(slash + c, '/') =~= seq![e, c]);
    assert(seq![e, c].drop_last() =~= seq![e]);
    assert(seq![e].drop_last() =~= Seq::<Seq<char>>::empty());
    assert((slash + c)[0] == '/');
    if c[0] == '/' {
        assert(c.contains('/'));
    }
    assert(!is_absolute(c));
    assert(is_absolute(slash + c));
    let none = Seq::<Seq<char>>::empty();
    assert(apply_components(base, none) == base);
    assert(apply_components(base, seq![c]) == apply_component(base, c));
    assert(apply_component(base, c) == base.push(c));
    assert(apply_components(none, none) == none);
    assert(seq![e].len() == 1 && seq![e].last() == e);
    assert(seq![e].drop_last() == none);
    assert(apply_components(none, seq![e]) == apply_component(none, e));
    assert(apply_components(none, seq![e, c]) == apply_component(
        apply_components(none, seq![e]),
        c,
    ));
    assert(none.push(c) =~= seq![c]);
}

} // verus!
