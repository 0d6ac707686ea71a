//! Role-tagged path types.
//!
//! A path is kept as its root ("prefix") plus a relative part, and each of
//! the four roles a path can play (home-anchored, backup-anchored,
//! repository-anchored, relative) is a distinct type, so a relative path
//! cannot be joined to the wrong root by accident.
//!
//! A relative path is a list of component names; rendering joins the
//! components with `/`.

use vstd::prelude::*;

verus! {

/// The components joined with `/` separators.
pub open spec fn join_components(s: Seq<Seq<char>>) -> Seq<char>
    decreases s.len(),
{
    if s.len() == 0 {
        Seq::empty()
    } else if s.len() == 1 {
        s[0]
    } else {
        join_components(s.drop_last()) + seq!['/'] + s.last()
    }
}

/// An absolute path: the prefix text, a separator, and the relative part.
pub open spec fn abs_path_of(prefix: Seq<char>, rel: Seq<Seq<char>>) -> Seq<char> {
    prefix + seq!['/'] + join_components(rel)
}

/// Clones a component list; the copy denotes the same path.
pub(crate) fn clone_components(v: &Vec<String>) -> (r: Vec<String>)
    ensures
        r.deep_view() == v.deep_view(),
        r@.len() == v@.len(),
        forall|j: int| 0 <= j < v@.len() ==> #[trigger] r@[j]@ == v@[j]@,
{
    let mut r: Vec<String> = Vec::new();
    let mut i: usize = 0;
    while i < v.len()
        invariant
            i <= v.len(),
            r@.len() == i,
            forall|j: int| 0 <= j < i ==> #[trigger] r@[j]@ == v@[j]@,
        decreases v.len() - i,
    {
        r.push(v[i].clone());
        i += 1;
    }
    proof {
        assert forall|j: int| 0 <= j < r.deep_view().len() implies r.deep_view()[j]
            == v.deep_view()[j] by {
            assert(r@[j]@ == v@[j]@);
        }
        assert(r.deep_view() =~= v.deep_view());
    }
    r
}

/// A relative path to a file, as a list of components.
///
/// Validity is by construction: the public constructor refuses empty or
/// separator-bearing components, so a `RelPath` can never render as an
/// absolute path or escape its root by spelling; the engine itself only
/// builds relative paths from directory-entry names it enumerated.
pub struct RelPath {
    pub components: Vec<String>,
}

/// Valid relative-path components: each nonempty and free of `/`.
pub open spec fn components_valid(s: Seq<Seq<char>>) -> bool {
    forall|j: int|
        0 <= j < s.len() ==> (#[trigger] s[j]).len() > 0 && (forall|i: int|
            0 <= i < s[j].len() ==> s[j][i] != '/')
}

impl View for RelPath {
    type V = Seq<Seq<char>>;

    open spec fn view(&self) -> Seq<Seq<char>> {
        self.components.deep_view()
    }
}

impl RelPath {
    /// The components are valid: nonempty and separator-free, so the
    /// path is relative. The counterpart of a constructor that refuses
    /// an absolute path outright.
    pub open spec fn wf(&self) -> bool {
        components_valid(self@)
    }

    pub fn new(components: Vec<String>) -> (r: Self)
        requires
            components_valid(components.deep_view()),
        ensures
            r@ == components.deep_view(),
            r.wf(),
    {
        RelPath { components }
    }

    pub fn as_path_buf(&self) -> (r: &Vec<String>)
        ensures
            r.deep_view() == self@,
    {
        &self.components
    }

    /// The path's text, components joined with `/`.
    pub fn to_string_lossy(&self) -> (r: String)
        ensures
            r@ == join_components(self@),
    {
        let mut r = String::new();
        let mut i: usize = 0;
        while i < self.components.len()
            invariant
                i <= self.components.len(),
                self@ == self.components.deep_view(),
                r@ == join_components(self@.subrange(0, i as int)),
            decreases self.components.len() - i,
        {
            if i > 0 {
                r.append("/");
            }
            r.append(self.components[i].as_str());
            proof {
                reveal_strlit("/");
                let sub = self@.subrange(0, i + 1 as int);
                assert(sub.drop_last() =~= self@.subrange(0, i as int));
                assert(sub.last() == self@[i as int]);
                if i == 0 {
                    assert(r@ =~= join_components(sub));
                } else {
                    assert(r@ =~= join_components(sub));
                }
            }
            i += 1;
        }
        proof {
            assert(self@.subrange(0, self.components.len() as int) =~= self@);
        }
        r
    }

    /// The path with its last component dropped; `None` for the empty path.
    pub fn parent(&self) -> (r: Option<RelPath>)
        ensures
            match r {
                Some(p) => self@.len() > 0 && p@ == self@.drop_last(),
                None => self@.len() == 0,
            },
    {
        if self.components.len() == 0 {
            None
        } else {
            let mut c: Vec<String> = Vec::new();
            let mut i: usize = 0;
            while i < self.components.len() - 1
                invariant
                    self.components.len() > 0,
                    i <= self.components.len() - 1,
                    c@.len() == i,
                    forall|j: int| 0 <= j < i ==> #[trigger] c@[j]@ == self.components@[j]@,
                decreases self.components.len() - 1 - i,
            {
                c.push(self.components[i].clone());
                i += 1;
            }
            proof {
                assert forall|j: int| 0 <= j < c.deep_view().len() implies c.deep_view()[j]
                    == self@.drop_last()[j] by {
                    assert(c@[j]@ == self.components@[j]@);
                }
                assert(c.deep_view() =~= self@.drop_last());
            }
            Some(RelPath { components: c })
        }
    }

    /// A copy denoting the same path.
    pub fn duplicate(&self) -> (r: Self)
        ensures
            r@ == self@,
    {
        RelPath { components: clone_components(&self.components) }
    }
}

/// The path to the home directory.
pub struct HomePath {
    pub path: String,
}

/// The path to the backup directory.
pub struct BackupPath {
    pub path: String,
}

/// The path to the dotfiles in the dotfiles repository.
pub struct DotfilesPath {
    pub path: String,
}

/// The path to the submodules in the dotfiles repository.
pub struct SubmodulesPath {
    pub path: String,
}

/// The path to the install scripts in the dotfiles repository.
pub struct InstallScriptsPath {
    pub path: String,
}

/// An absolute path to a file in the home directory.
pub struct HomeFile {
    pub prefix: HomePath,
    pub rel: RelPath,
}

/// An absolute path to a file in the backup directory.
pub struct BackupFile {
    pub prefix: BackupPath,
    pub rel: RelPath,
}

/// An absolute path to a dotfile in the dotfiles repository.
pub struct Dotfile {
    pub prefix: DotfilesPath,
    pub rel: RelPath,
}

impl View for HomePath {
    type V = Seq<char>;

    open spec fn view(&self) -> Seq<char> {
        self.path@
    }
}

impl View for BackupPath {
    type V = Seq<char>;

    open spec fn view(&self) -> Seq<char> {
        self.path@
    }
}

impl View for DotfilesPath {
    type V = Seq<char>;

    open spec fn view(&self) -> Seq<char> {
        self.path@
    }
}

impl View for SubmodulesPath {
    type V = Seq<char>;

    open spec fn view(&self) -> Seq<char> {
        self.path@
    }
}

impl View for InstallScriptsPath {
    type V = Seq<char>;

    open spec fn view(&self) -> Seq<char> {
        self.path@
    }
}

impl View for HomeFile {
    type V = (Seq<char>, Seq<Seq<char>>);

    open spec fn view(&self) -> (Seq<char>, Seq<Seq<char>>) {
        (self.prefix@, self.rel@)
    }
}

impl View for BackupFile {
    type V = (Seq<char>, Seq<Seq<char>>);

    open spec fn view(&self) -> (Seq<char>, Seq<Seq<char>>) {
        (self.prefix@, self.rel@)
    }
}

impl View for Dotfile {
    type V = (Seq<char>, Seq<Seq<char>>);

    open spec fn view(&self) -> (Seq<char>, Seq<Seq<char>>) {
        (self.prefix@, self.rel@)
    }
}

impl HomePath {
    pub fn new(path: String) -> (r: Self)
        ensures
            r@ == path@,
    {
        HomePath { path }
    }

    pub fn as_path_buf(&self) -> (r: &String)
        ensures
            r@ == self@,
    {
        &self.path
    }

    pub fn with_rel_file(&self, file: &RelPath) -> (r: HomeFile)
        ensures
            r@ == (self@, file@),
    {
        HomeFile { prefix: HomePath { path: self.path.clone() }, rel: file.duplicate() }
    }
}

impl BackupPath {
    pub fn new(path: String) -> (r: Self)
        ensures
            r@ == path@,
    {
        BackupPath { path }
    }

    pub fn as_path_buf(&self) -> (r: &String)
        ensures
            r@ == self@,
    {
        &self.path
    }

    pub fn with_rel_file(&self, file: &RelPath) -> (r: BackupFile)
        ensures
            r@ == (self@, file@),
    {
        BackupFile { prefix: BackupPath { path: self.path.clone() }, rel: file.duplicate() }
    }
}

impl DotfilesPath {
    pub fn new(path: String) -> (r: Self)
        ensures
            r@ == path@,
    {
        DotfilesPath { path }
    }

    pub fn as_path_buf(&self) -> (r: &String)
        ensures
            r@ == self@,
    {
        &self.path
    }

    pub fn as_path(&self) -> (r: &String)
        ensures
            r@ == self@,
    {
        &self.path
    }

    pub fn with_rel_file(&self, file: &RelPath) -> (r: Dotfile)
        ensures
            r@ == (self@, file@),
    {
        Dotfile { prefix: DotfilesPath { path: self.path.clone() }, rel: file.duplicate() }
    }
}

impl SubmodulesPath {
    pub fn new(path: String) -> (r: Self)
        ensures
            r@ == path@,
    {
        SubmodulesPath { path }
    }

    pub fn as_path(&self) -> (r: &String)
        ensures
            r@ == self@,
    {
        &self.path
    }

    pub fn to_string_lossy(&self) -> (r: String)
        ensures
            r@ == self@,
    {
        self.path.clone()
    }
}

impl InstallScriptsPath {
    pub fn new(path: String) -> (r: Self)
        ensures
            r@ == path@,
    {
        InstallScriptsPath { path }
    }

    pub fn as_path(&self) -> (r: &String)
        ensures
            r@ == self@,
    {
        &self.path
    }
}

impl HomeFile {
    pub fn new(prefix: &HomePath, file: &RelPath) -> (r: Self)
        ensures
            r@ == (prefix@, file@),
    {
        prefix.with_rel_file(file)
    }

    pub fn prefix(&self) -> (r: &HomePath)
        ensures
            r@ == self.prefix@,
    {
        &self.prefix
    }

    pub fn rel_file(&self) -> (r: &RelPath)
        ensures
            r@ == self.rel@,
    {
        &self.rel
    }

    /// The full path text: prefix, separator, relative part.
    pub fn to_path_buf(&self) -> (r: String)
        ensures
            r@ == abs_path_of(self.prefix@, self.rel@),
    {
        let mut r = self.prefix.path.clone();
        r.append("/");
        let rel = self.rel.to_string_lossy();
        r.append(rel.as_str());
        proof {
            reveal_strlit("/");
            assert(r@ =~= abs_path_of(self.prefix@, self.rel@));
        }
        r
    }

    pub fn to_string_lossy(&self) -> (r: String)
        ensures
            r@ == abs_path_of(self.prefix@, self.rel@),
    {
        self.to_path_buf()
    }

    pub fn parent(&self) -> (r: Option<Self>)
        ensures
            match r {
                Some(p) => self.rel@.len() > 0 && p@ == (self.prefix@, self.rel@.drop_last()),
                None => self.rel@.len() == 0,
            },
    {
        match self.rel.parent() {
            Some(p) => Some(HomeFile { prefix: HomePath { path: self.prefix.path.clone() }, rel: p }),
            None => None,
        }
    }
}

impl BackupFile {
    pub fn new(prefix: &BackupPath, file: &RelPath) -> (r: Self)
        ensures
            r@ == (prefix@, file@),
    {
        prefix.with_rel_file(file)
    }

    pub fn prefix(&self) -> (r: &BackupPath)
        ensures
            r@ == self.prefix@,
    {
        &self.prefix
    }

    pub fn rel_file(&self) -> (r: &RelPath)
        ensures
            r@ == self.rel@,
    {
        &self.rel
    }

    /// The full path text: prefix, separator, relative part.
    pub fn to_path_buf(&self) -> (r: String)
        ensures
            r@ == abs_path_of(self.prefix@, self.rel@),
    {
        let mut r = self.prefix.path.clone();
        r.append("/");
        let rel = self.rel.to_string_lossy();
        r.append(rel.as_str());
        proof {
            reveal_strlit("/");
            assert(r@ =~= abs_path_of(self.prefix@, self.rel@));
        }
        r
    }

    pub fn to_string_lossy(&self) -> (r: String)
        ensures
            r@ == abs_path_of(self.prefix@, self.rel@),
    {
        self.to_path_buf()
    }

    pub fn parent(&self) -> (r: Option<Self>)
        ensures
            match r {
                Some(p) => self.rel@.len() > 0 && p@ == (self.prefix@, self.rel@.drop_last()),
                None => self.rel@.len() == 0,
            },
    {
        match self.rel.parent() {
            Some(p) => Some(
                BackupFile { prefix: BackupPath { path: self.prefix.path.clone() }, rel: p },
            ),
            None => None,
        }
    }
}

impl Dotfile {
    pub fn new(prefix: &DotfilesPath, file: &RelPath) -> (r: Self)
        ensures
            r@ == (prefix@, file@),
    {
        prefix.with_rel_file(file)
    }

    pub fn prefix(&self) -> (r: &DotfilesPath)
        ensures
            r@ == self.prefix@,
    {
        &self.prefix
    }

    pub fn rel_file(&self) -> (r: &RelPath)
        ensures
            r@ == self.rel@,
    {
        &self.rel
    }

    /// The full path text: prefix, separator, relative part.
    pub fn to_path_buf(&self) -> (r: String)
        ensures
            r@ == abs_path_of(self.prefix@, self.rel@),
    {
        let mut r = self.prefix.path.clone();
        r.append("/");
        let rel = self.rel.to_string_lossy();
        r.append(rel.as_str());
        proof {
            reveal_strlit("/");
            assert(r@ =~= abs_path_of(self.prefix@, self.rel@));
        }
        r
    }

    pub fn to_string_lossy(&self) -> (r: String)
        ensures
            r@ == abs_path_of(self.prefix@, self.rel@),
    {
        self.to_path_buf()
    }

    pub fn parent(&self) -> (r: Option<Self>)
        ensures
            match r {
                Some(p) => self.rel@.len() > 0 && p@ == (self.prefix@, self.rel@.drop_last()),
                None => self.rel@.len() == 0,
            },
    {
        match self.rel.parent() {
            Some(p) => Some(
                Dotfile { prefix: DotfilesPath { path: self.prefix.path.clone() }, rel: p },
            ),
            None => None,
        }
    }
}

/// A path to a file in some prefix: a root plus a relative part, with
/// role-safe joining. Implemented by the three file-location types; the
/// contracts hold for every implementor.
pub trait FilePath: Sized + View<V = (Seq<char>, Seq<Seq<char>>)> {
    type Prefix: View<V = Seq<char>>;

    fn prefix(&self) -> (r: &Self::Prefix)
        ensures
            r@ == self@.0,
    ;

    fn rel_file(&self) -> (r: &RelPath)
        ensures
            r@ == self@.1,
    ;

    fn new(prefix: &Self::Prefix, file: &RelPath) -> (r: Self)
        ensures
            r@ == (prefix@, file@),
    ;

    fn to_path_buf(&self) -> (r: String)
        ensures
            r@ == abs_path_of(self@.0, self@.1),
    ;
}

/// The path to a prefix: one of the root locations a relative path can
/// be joined to.
pub trait Prefix: Sized + View<V = Seq<char>> {
    type File: FilePath;

    fn new(path: String) -> (r: Self)
        ensures
            r@ == path@,
    ;

    fn as_path_buf(&self) -> (r: &String)
        ensures
            r@ == self@,
    ;

    fn with_rel_file(&self, path: &RelPath) -> (r: Self::File)
        ensures
            r@ == (self@, path@),
    ;
}

impl FilePath for HomeFile {
    type Prefix = HomePath;

    fn prefix(&self) -> (r: &HomePath) {
        HomeFile::prefix(self)
    }

    fn rel_file(&self) -> (r: &RelPath) {
        HomeFile::rel_file(self)
    }

    fn new(prefix: &HomePath, file: &RelPath) -> (r: Self) {
        HomeFile::new(prefix, file)
    }

    fn to_path_buf(&self) -> (r: String) {
        HomeFile::to_path_buf(self)
    }
}

impl FilePath for BackupFile {
    type Prefix = BackupPath;

    fn prefix(&self) -> (r: &BackupPath) {
        BackupFile::prefix(self)
    }

    fn rel_file(&self) -> (r: &RelPath) {
        BackupFile::rel_file(self)
    }

    fn new(prefix: &BackupPath, file: &RelPath) -> (r: Self) {
        BackupFile::new(prefix, file)
    }

    fn to_path_buf(&self) -> (r: String) {
        BackupFile::to_path_buf(self)
    }
}

impl FilePath for Dotfile {
    type Prefix = DotfilesPath;

    fn prefix(&self) -> (r: &DotfilesPath) {
        Dotfile::prefix(self)
    }

    fn rel_file(&self) -> (r: &RelPath) {
        Dotfile::rel_file(self)
    }

    fn new(prefix: &DotfilesPath, file: &RelPath) -> (r: Self) {
        Dotfile::new(prefix, file)
    }

    fn to_path_buf(&self) -> (r: String) {
        Dotfile::to_path_buf(self)
    }
}

impl Prefix for HomePath {
    type File = HomeFile;

    fn new(path: String) -> (r: Self) {
        HomePath::new(path)
    }

    fn as_path_buf(&self) -> (r: &String) {
        HomePath::as_path_buf(self)
    }

    fn with_rel_file(&self, path: &RelPath) -> (r: HomeFile) {
        HomePath::with_rel_file(self, path)
    }
}

impl Prefix for BackupPath {
    type File = BackupFile;

    fn new(path: String) -> (r: Self) {
        BackupPath::new(path)
    }

    fn as_path_buf(&self) -> (r: &String) {
        BackupPath::as_path_buf(self)
    }

    fn with_rel_file(&self, path: &RelPath) -> (r: BackupFile) {
        BackupPath::with_rel_file(self, path)
    }
}

impl Prefix for DotfilesPath {
    type File = Dotfile;

    fn new(path: String) -> (r: Self) {
        DotfilesPath::new(path)
    }

    fn as_path_buf(&self) -> (r: &String) {
        DotfilesPath::as_path_buf(self)
    }

    fn with_rel_file(&self, path: &RelPath) -> (r: Dotfile) {
        DotfilesPath::with_rel_file(self, path)
    }
}

} // verus!
