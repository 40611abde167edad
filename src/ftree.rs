use vstd::prelude::*;
use crate::path::{components, names, path_components};

verus! {

/// A regular file: modification time in nanoseconds since the epoch, and size in bytes.
#[derive(Clone, Copy, PartialEq, Eq, Debug)]
pub struct FnodeFile {
    pub date: u128,
    pub size: u64,
}

/// A directory: its named children in insertion order, and the entirety flag.
///
/// In an add-tree a directory with the flag set is created along with everything
/// beneath it; in a rem-tree it is deleted recursively. Without the flag only the
/// listed children are processed.
#[derive(Debug)]
pub struct FnodeDir {
    pub children: Vec<(String, Fnode)>,
    pub entirity: bool,
}

#[derive(Debug)]
pub enum Fnode {
    File(FnodeFile),
    Dir(FnodeDir),
}

/// The mathematical model of a node.
pub enum NodeView {
    File(FnodeFile),
    Dir(DirView),
}

/// The mathematical model of a directory.
pub struct DirView {
    pub children: Seq<(Seq<char>, NodeView)>,
    pub entirety: bool,
}

pub type Children = Seq<(Seq<char>, NodeView)>;

pub open spec fn node_view(n: Fnode) -> NodeView
    decreases n,
{
    match n {
        Fnode::File(f) => NodeView::File(f),
        Fnode::Dir(d) => NodeView::Dir(dir_view(d)),
    }
}

pub open spec fn child_view(c: (String, Fnode)) -> (Seq<char>, NodeView) {
    (c.0@, node_view(c.1))
}

pub open spec fn dir_view(d: FnodeDir) -> DirView
    decreases d,
{
    DirView {
        children: Seq::new(
            d.children@.len(),
            |i: int|
                if 0 <= i < d.children@.len() {
                    (d.children@[i].0@, node_view(d.children@[i].1))
                } else {
                    (Seq::empty(), NodeView::File(FnodeFile { date: 0, size: 0 }))
                },
        ),
        entirety: d.entirity,
    }
}

impl View for FnodeDir {
    type V = DirView;

    open spec fn view(&self) -> DirView {
        dir_view(*self)
    }
}

/// An empty directory without the entirety flag.
pub open spec fn empty_dir() -> DirView {
    DirView { children: Seq::empty(), entirety: false }
}

/// The first file named `name` at or after position `i`.
pub open spec fn find_file(cs: Children, name: Seq<char>, i: int) -> Option<FnodeFile>
    decreases cs.len() - i,
{
    if i < 0 || i >= cs.len() {
        None
    } else if cs[i].0 == name && cs[i].1 is File {
        Some(cs[i].1->File_0)
    } else {
        find_file(cs, name, i + 1)
    }
}

/// The first directory named `name` at or after position `i`.
pub open spec fn find_dir(cs: Children, name: Seq<char>, i: int) -> Option<DirView>
    decreases cs.len() - i,
{
    if i < 0 || i >= cs.len() {
        None
    } else if cs[i].0 == name && cs[i].1 is Dir {
        Some(cs[i].1->Dir_0)
    } else {
        find_dir(cs, name, i + 1)
    }
}

/// The position of the first child named `name`, of either kind, at or after `i`.
pub open spec fn find_name(cs: Children, name: Seq<char>, i: int) -> Option<int>
    decreases cs.len() - i,
{
    if i < 0 || i >= cs.len() {
        None
    } else if cs[i].0 == name {
        Some(i)
    } else {
        find_name(cs, name, i + 1)
    }
}

pub open spec fn lookup_file(d: DirView, name: Seq<char>) -> Option<FnodeFile> {
    find_file(d.children, name, 0)
}

pub open spec fn lookup_dir(d: DirView, name: Seq<char>) -> Option<DirView> {
    find_dir(d.children, name, 0)
}

/// `d` with `e` as the entirety flag of every directory in it.
pub open spec fn entire_dir(d: DirView, e: bool) -> DirView
    decreases d,
{
    DirView {
        children: Seq::new(
            d.children.len(),
            |i: int|
                if 0 <= i < d.children.len() {
                    (d.children[i].0, entire_node(d.children[i].1, e))
                } else {
                    (Seq::empty(), NodeView::File(FnodeFile { date: 0, size: 0 }))
                },
        ),
        entirety: e,
    }
}

pub open spec fn entire_node(n: NodeView, e: bool) -> NodeView
    decreases n,
{
    match n {
        NodeView::File(f) => NodeView::File(f),
        NodeView::Dir(d) => NodeView::Dir(entire_dir(d, e)),
    }
}

pub open spec fn with_child(d: DirView, name: Seq<char>, n: NodeView) -> DirView {
    DirView { children: d.children.push((name, n)), entirety: d.entirety }
}

pub open spec fn without_child(d: DirView, i: int) -> DirView {
    DirView { children: d.children.remove(i), entirety: d.entirety }
}

/// `d` after removing, by name, its last component at `name`: a file of that name
/// unless `isdir`, and then in any case a directory of that name. Each removal takes
/// out the first child that bears the name, whatever its kind.
pub open spec fn removed_last(d: DirView, name: Seq<char>, isdir: bool) -> DirView {
    let d1 = if !isdir && lookup_file(d, name) is Some {
        without_child(d, find_name(d.children, name, 0)->Some_0)
    } else {
        d
    };
    if lookup_dir(d1, name) is Some {
        without_child(d1, find_name(d1.children, name, 0)->Some_0)
    } else {
        d1
    }
}

/// `d` after removing the entry at `path`, or `None` where an intermediate
/// component is not a directory of `d` or the path is empty. The directory that
/// holds a removal moves to the end of its parent's children.
pub open spec fn removed(d: DirView, path: Seq<Seq<char>>, isdir: bool) -> Option<DirView>
    decreases path.len(),
{
    if path.len() == 0 {
        None
    } else if path.len() == 1 {
        Some(removed_last(d, path[0], isdir))
    } else {
        match lookup_dir(d, path[0]) {
            None => None,
            Some(sub) => match removed(sub, path.drop_first(), isdir) {
                None => None,
                Some(sub2) => Some(
                    with_child(
                        without_child(d, find_name(d.children, path[0], 0)->Some_0),
                        path[0],
                        NodeView::Dir(sub2),
                    ),
                ),
            },
        }
    }
}

proof fn lemma_find_file_named(cs: Children, name: Seq<char>, i: int)
    requires
        find_file(cs, name, i) is Some,
    ensures
        find_name(cs, name, i) is Some,
        0 <= find_name(cs, name, i)->Some_0 < cs.len(),
    decreases cs.len() - i,
{
    if cs[i].0 != name {
        lemma_find_file_named(cs, name, i + 1);
    }
}

proof fn lemma_find_dir_named(cs: Children, name: Seq<char>, i: int)
    requires
        find_dir(cs, name, i) is Some,
    ensures
        find_name(cs, name, i) is Some,
        0 <= find_name(cs, name, i)->Some_0 < cs.len(),
    decreases cs.len() - i,
{
    if cs[i].0 != name {
        lemma_find_dir_named(cs, name, i + 1);
    }
}

/// No two children bear the same name.
pub open spec fn distinct_names(cs: Children) -> bool {
    forall|i: int, j: int| 0 <= i < j < cs.len() ==> cs[i].0 != cs[j].0
}

/// The invariant of a scanned tree: in every directory the names are distinct.
pub open spec fn unique_names(d: DirView) -> bool
    decreases d,
{
    distinct_names(d.children) && forall|i: int|
        0 <= i < d.children.len() ==> ((#[trigger] d.children[i]).1 is Dir ==> unique_names(
            d.children[i].1->Dir_0,
        ))
}

/// The file at the relative path `p`, following directories by name.
pub open spec fn file_at(d: DirView, p: Seq<Seq<char>>) -> Option<FnodeFile>
    decreases p.len(),
{
    if p.len() == 0 {
        None
    } else if p.len() == 1 {
        lookup_file(d, p[0])
    } else {
        match lookup_dir(d, p[0]) {
            Some(sub) => file_at(sub, p.drop_first()),
            None => None,
        }
    }
}

/// The directory at the relative path `p`; the empty path is `d` itself.
pub open spec fn dir_at(d: DirView, p: Seq<Seq<char>>) -> Option<DirView>
    decreases p.len(),
{
    if p.len() == 0 {
        Some(d)
    } else {
        match lookup_dir(d, p[0]) {
            Some(sub) => dir_at(sub, p.drop_first()),
            None => None,
        }
    }
}

pub proof fn lemma_find_dir_unique(cs: Children, i: int, k: int)
    requires
        distinct_names(cs),
        0 <= k <= i < cs.len(),
        cs[i].1 is Dir,
    ensures
        find_dir(cs, cs[i].0, k) == Some(cs[i].1->Dir_0),
    decreases i - k,
{
    if k < i {
        lemma_find_dir_unique(cs, i, k + 1);
    }
}

pub proof fn lemma_find_file_unique(cs: Children, i: int, k: int)
    requires
        distinct_names(cs),
        0 <= k <= i < cs.len(),
        cs[i].1 is File,
    ensures
        find_file(cs, cs[i].0, k) == Some(cs[i].1->File_0),
    decreases i - k,
{
    if k < i {
        lemma_find_file_unique(cs, i, k + 1);
    }
}

impl FnodeFile {
    pub fn new(date: u128, size: u64) -> (r: FnodeFile)
        ensures
            r.date == date,
            r.size == size,
    {
        FnodeFile { date, size }
    }

    pub fn date(&self) -> (r: u128)
        ensures
            r == self.date,
    {
        self.date
    }

    /// Get the fnode file's size.
    pub fn size(&self) -> (r: u64)
        ensures
            r == self.size,
    {
        self.size
    }
}

impl Default for FnodeDir {
    fn default() -> (r: FnodeDir)
        ensures
            r@ == empty_dir(),
    {
        let r = FnodeDir { children: Vec::new(), entirity: false };
        assert(r@.children =~= Seq::empty());
        r
    }
}

impl Clone for Fnode {
    fn clone(&self) -> (r: Fnode)
        ensures
            node_view(r) == node_view(*self),
        decreases self,
    {
        match self {
            Fnode::File(f) => Fnode::File(*f),
            Fnode::Dir(d) => Fnode::Dir(d.clone()),
        }
    }
}

impl Clone for FnodeDir {
    fn clone(&self) -> (r: FnodeDir)
        ensures
            r@ == self@,
        decreases self,
    {
        let mut children: Vec<(String, Fnode)> = Vec::new();
        let mut i: usize = 0;
        while i < self.children.len()
            invariant
                i <= self.children@.len(),
                children@.len() == i,
                forall|j: int|
                    0 <= j < i ==> #[trigger] child_view(children@[j]) == child_view(
                        self.children@[j],
                    ),
            decreases self.children@.len() - i,
        {
            let n = self.children[i].0.clone();
            proof {
                assert(decreases_to!(self => self.children@[i as int].1));
            }
            let c = self.children[i].1.clone();
            children.push((n, c));
            proof {
                assert(child_view(children@[i as int]) == child_view(self.children@[i as int]));
            }
            i = i + 1;
        }
        let r = FnodeDir { children, entirity: self.entirity };
        proof {
            assert forall|j: int| 0 <= j < r.children@.len() implies r@.children[j]
                == self@.children[j] by {
                assert(child_view(r.children@[j]) == child_view(self.children@[j]));
            }
            assert(r@.children =~= self@.children);
        }
        r
    }
}

impl FnodeDir {
    pub fn append_dir(&mut self, name: String, fnode: FnodeDir)
        ensures
            final(self)@ == with_child(old(self)@, name@, NodeView::Dir(fnode@)),
    {
        self.children.push((name, Fnode::Dir(fnode)));
        assert(self@.children =~= old(self)@.children.push((name@, NodeView::Dir(fnode@))));
    }

    pub fn append_file(&mut self, name: String, fnode: FnodeFile)
        ensures
            final(self)@ == with_child(old(self)@, name@, NodeView::File(fnode)),
    {
        self.children.push((name, Fnode::File(fnode)));
        assert(self@.children =~= old(self)@.children.push((name@, NodeView::File(fnode))));
    }

    pub fn children(&self) -> (r: &[(String, Fnode)])
        ensures
            r@ == self.children@,
    {
        self.children.as_slice()
    }

    pub fn set_entirity(&mut self, entirity: bool)
        ensures
            final(self)@ == (DirView { entirety: entirity, ..old(self)@ }),
    {
        self.entirity = entirity;
    }

    /// The first child that is a file named `file`.
    pub fn file(&self, file: &String) -> (r: Option<&FnodeFile>)
        ensures
            r is Some <==> lookup_file(self@, file@) is Some,
            r is Some ==> *r->Some_0 == lookup_file(self@, file@)->Some_0,
    {
        let mut i: usize = 0;
        while i < self.children.len()
            invariant
                i <= self.children@.len(),
                lookup_file(self@, file@) == find_file(self@.children, file@, i as int),
            decreases self.children@.len() - i,
        {
            let (name, node) = &self.children[i];
            assert(self@.children[i as int] == child_view(self.children@[i as int]));
            if let Fnode::File(f) = node {
                if *name == *file {
                    return Some(f);
                }
            }
            i = i + 1;
        }
        None
    }

    /// The first child that is a directory named `dir`.
    pub fn subdir(&self, dir: &String) -> (r: Option<&FnodeDir>)
        ensures
            r is Some <==> lookup_dir(self@, dir@) is Some,
            r is Some ==> r->Some_0@ == lookup_dir(self@, dir@)->Some_0,
    {
        let mut i: usize = 0;
        while i < self.children.len()
            invariant
                i <= self.children@.len(),
                lookup_dir(self@, dir@) == find_dir(self@.children, dir@, i as int),
            decreases self.children@.len() - i,
        {
            let (name, node) = &self.children[i];
            assert(self@.children[i as int] == child_view(self.children@[i as int]));
            if let Fnode::Dir(d) = node {
                if *name == *dir {
                    return Some(d);
                }
            }
            i = i + 1;
        }
        None
    }

    /// The position of the first child named `name`, whatever its kind.
    fn index(&self, name: &String) -> (r: Option<usize>)
        ensures
            r is Some <==> find_name(self@.children, name@, 0) is Some,
            r is Some ==> find_name(self@.children, name@, 0) == Some(r->Some_0 as int),
    {
        let mut i: usize = 0;
        while i < self.children.len()
            invariant
                i <= self.children@.len(),
                find_name(self@.children, name@, 0) == find_name(self@.children, name@, i as int),
            decreases self.children@.len() - i,
        {
            assert(self@.children[i as int] == child_view(self.children@[i as int]));
            if self.children[i].0 == *name {
                return Some(i);
            }
            i = i + 1;
        }
        None
    }

    /// Consumes the directory and gives it back with `entirity` as the flag of
    /// every directory in it.
    fn into_entire(self, entirity: bool) -> (r: FnodeDir)
        ensures
            r@ == entire_dir(self@, entirity),
        decreases self,
    {
        let ghost orig = self.children@;
        let mut rest = self.children;
        let mut done: Vec<(String, Fnode)> = Vec::new();
        while rest.len() > 0
            invariant
                done@.len() + rest@.len() == orig.len(),
                rest@ == orig.subrange(done@.len() as int, orig.len() as int),
                forall|j: int|
                    0 <= j < done@.len() ==> #[trigger] child_view(done@[j]) == (
                    orig[j].0@,
                    entire_node(node_view(orig[j].1), entirity),
                ),
                orig == self.children@,
            decreases rest@.len(),
        {
            let ghost k = done@.len() as int;
            let (name, node) = rest.remove(0);
            assert(orig[k] == (name, node));
            let node = match node {
                Fnode::File(f) => Fnode::File(f),
                Fnode::Dir(d) => {
                    proof {
                        assert(decreases_to!(self => orig[k].1));
                    }
                    Fnode::Dir(d.into_entire(entirity))
                },
            };
            done.push((name, node));
            assert(child_view(done@[k]) == (orig[k].0@, entire_node(node_view(orig[k].1), entirity)));
        }
        let r = FnodeDir { children: done, entirity };
        proof {
            let e = entire_dir(self@, entirity);
            assert forall|j: int| 0 <= j < r.children@.len() implies r@.children[j] == e.children[j] by {
                assert(child_view(r.children@[j]) == (orig[j].0@, entire_node(node_view(orig[j].1), entirity)));
            }
            assert(r@.children =~= e.children);
        }
        r
    }

    pub fn set_entirity_recursively(&mut self, entirity: bool)
        ensures
            final(self)@ == entire_dir(old(self)@, entirity),
    {
        let mut d = FnodeDir::default();
        std::mem::swap(self, &mut d);
        *self = d.into_entire(entirity);
    }

    /// Removes from the directory the child at position `i`.
    fn remove_child(&mut self, i: usize)
        requires
            i < old(self).children@.len(),
        ensures
            final(self)@ == without_child(old(self)@, i as int),
    {
        self.children.remove(i);
        assert(self@.children =~= old(self)@.children.remove(i as int));
    }

    fn remove_components(&mut self, path: &Vec<String>, at: usize, isdir: bool) -> (r: Result<(), ()>)
        requires
            at <= path@.len(),
        ensures
            match removed(old(self)@, names(path@).subrange(at as int, path@.len() as int), isdir) {
                Some(v) => r is Ok && final(self)@ == v,
                None => r is Err && final(self)@ == old(self)@,
            },
        decreases path@.len() - at,
    {
        let ghost p = names(path@).subrange(at as int, path@.len() as int);
        if at >= path.len() {
            return Err(());
        }
        let field = &path[at];
        assert(p[0] == field@);
        if at + 1 < path.len() {
            match self.subdir(field) {
                Some(dir) => {
                    let mut dir = dir.clone();
                    assert(names(path@).subrange(at + 1, path@.len() as int) =~= p.drop_first());
                    match dir.remove_components(path, at + 1, isdir) {
                        Ok(()) => {},
                        Err(()) => {
                            return Err(());
                        },
                    }
                    proof {
                        lemma_find_dir_named(self@.children, field@, 0);
                    }
                    let prev_index = self.index(field);
                    match prev_index {
                        Some(k) => self.remove_child(k),
                        None => {},
                    }
                    self.append_dir(field.clone(), dir);
                    Ok(())
                },
                None => Err(()),
            }
        } else {
            if !isdir {
                if self.file(field).is_some() {
                    proof {
                        lemma_find_file_named(self@.children, field@, 0);
                    }
                    let prev_index = self.index(field);
                    match prev_index {
                        Some(k) => self.remove_child(k),
                        None => {},
                    }
                }
            }
            if self.subdir(field).is_some() {
                proof {
                    lemma_find_dir_named(self@.children, field@, 0);
                }
                let prev_index = self.index(field);
                match prev_index {
                    Some(k) => self.remove_child(k),
                    None => {},
                }
            }
            Ok(())
        }
    }

    /// Removes the entry at the relative path `path`. The final component is removed
    /// as a file unless `isdir`, and in any case as a directory; every other component
    /// must be a directory that exists, else nothing changes and `Err` comes back.
    pub fn remove_path(&mut self, path: &str, isdir: bool) -> (r: Result<(), ()>)
        ensures
            match removed(old(self)@, components(path@), isdir) {
                Some(v) => r is Ok && final(self)@ == v,
                None => r is Err && final(self)@ == old(self)@,
            },
    {
        let comps = path_components(path);
        assert(names(comps@).subrange(0, comps@.len() as int) =~= components(path@));
        self.remove_components(&comps, 0, isdir)
    }

    pub fn entirity(&self) -> (r: bool)
        ensures
            r == self@.entirety,
    {
        self.entirity
    }
}

} // verus!
