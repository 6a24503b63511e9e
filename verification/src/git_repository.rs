use vstd::prelude::*;


verus! {

/// Something that names a GitHub repository and says where to clone it from.
pub trait GitRepository {
    /// The repository's full name (`owner/name`).
    spec fn repository_name_view(&self) -> Seq<char>;

    /// The URI the repository is fetched from.
    spec fn clone_uri_view(&self) -> Seq<char>;

    fn repository_name(&self) -> (name: &str)
        ensures
            name@ == self.repository_name_view(),
    ;

    fn clone_uri(&self) -> (uri: &str)
        ensures
            uri@ == self.clone_uri_view(),
    ;
}

/// How many times opening the local mirror is tried before giving up.
pub const ATTEMPTS: u8 = 3;

/// What is found where the local mirror of a repository is kept.
#[derive(Clone, Copy, Debug, PartialEq, Eq, Structural)]
pub enum PathState {
    /// Nothing.
    Missing,
    /// A directory; `opens` says whether git opens it as a repository.
    Directory { opens: bool },
    /// Something that is not a directory.
    Other,
}

/// What to do next when opening the local mirror.
#[derive(Clone, Copy, Debug, PartialEq, Eq, Structural)]
pub enum OpenStep {
    /// Give up with `RepositoryOpenError`.
    Fail,
    /// Use the repository that the directory holds.
    Open,
    /// Remove the directory, then try again with this many attempts.
    RemoveDirectory { retry_with: u8 },
    /// Remove the file, then try again with this many attempts.
    RemoveFile { retry_with: u8 },
    /// Create a new repository there, with `init_options`.
    Init,
}

/// One attempt at opening the local mirror, with `attempts` tries left: an
/// existing repository is used; anything else in its place is removed and
/// the attempt repeated with one try less; where nothing is, a new repository
/// is made. With no tries left it fails.
pub open spec fn next_open_step(attempts: u8, path: PathState) -> OpenStep {
    if attempts == 0 {
        OpenStep::Fail
    } else {
        match path {
            PathState::Missing => OpenStep::Init,
            PathState::Directory { opens } => if opens {
                OpenStep::Open
            } else {
                OpenStep::RemoveDirectory { retry_with: (attempts - 1) as u8 }
            },
            PathState::Other => OpenStep::RemoveFile { retry_with: (attempts - 1) as u8 },
        }
    }
}

/// Decides the next step of opening the local mirror.
pub fn open_step(attempts: u8, path: PathState) -> (step: OpenStep)
    ensures
        step == next_open_step(attempts, path),
        attempts == 0 ==> step == OpenStep::Fail,
        attempts > 0 && path == PathState::Missing ==> step == OpenStep::Init,
        attempts > 0 && path == (PathState::Directory { opens: true }) ==> step == OpenStep::Open,
        attempts > 0 && path == (PathState::Directory { opens: false }) ==> step == (
        OpenStep::RemoveDirectory { retry_with: (attempts - 1) as u8 }),
        attempts > 0 && path == PathState::Other ==> step == (OpenStep::RemoveFile {
            retry_with: (attempts - 1) as u8,
        }),
{
    if attempts == 0 {
        return OpenStep::Fail;
    }
    match path {
        PathState::Directory { opens } => {
            if opens {
                OpenStep::Open
            } else {
                OpenStep::RemoveDirectory { retry_with: attempts - 1 }
            }
        },
        PathState::Other => OpenStep::RemoveFile { retry_with: attempts - 1 },
        PathState::Missing => OpenStep::Init,
    }
}

/// Opening the mirror: only with no tries left does it fail; with tries left
/// a missing mirror is created, an existing repository used, and a broken
/// directory or a stray file removed and retried with one try less. So every
/// retry hands on fewer tries, and at most `attempts` removals are made
/// before opening succeeds or fails.
pub proof fn lemma_open_terminates(attempts: u8, path: PathState)
    ensures
        attempts == 0 ==> next_open_step(attempts, path) == OpenStep::Fail,
        attempts > 0 ==> next_open_step(attempts, path) != OpenStep::Fail,
        attempts > 0 && path == PathState::Missing ==> next_open_step(attempts, path)
            == OpenStep::Init,
        attempts > 0 && path == (PathState::Directory { opens: true }) ==> next_open_step(
            attempts,
            path,
        ) == OpenStep::Open,
        attempts > 0 && path == (PathState::Directory { opens: false }) ==> next_open_step(
            attempts,
            path,
        ) == (OpenStep::RemoveDirectory { retry_with: (attempts - 1) as u8 }),
        attempts > 0 && path == PathState::Other ==> next_open_step(attempts, path) == (
        OpenStep::RemoveFile { retry_with: (attempts - 1) as u8 }),
        next_open_step(attempts, path) matches OpenStep::RemoveDirectory { retry_with }
            ==> retry_with < attempts,
        next_open_step(attempts, path) matches OpenStep::RemoveFile { retry_with } ==> retry_with
            < attempts,
{
}

/// How a new local mirror is made.
pub struct InitOptions {
    pub bare: bool,
    pub no_reinit: bool,
    pub no_dotgit_dir: bool,
    pub mkdir: bool,
    pub mkpath: bool,
}

/// A new mirror is a bare repository, never made over an existing one, with
/// the directories on its path created as needed.
pub fn init_options() -> (opts: InitOptions)
    ensures
        opts.bare,
        opts.no_reinit,
        !opts.no_dotgit_dir,
        opts.mkdir,
        opts.mkpath,
{
    InitOptions { bare: true, no_reinit: true, no_dotgit_dir: false, mkdir: true, mkpath: true }
}

/// The remote that the mirror fetches from, as it is set up when missing.
pub struct FetchRemote {
    pub name: String,
    pub url: String,
    pub refspecs: Vec<String>,
}

/// The fetch remote of the mirror is called `fetch`, points at the clone
/// URI, and fetches every branch and tag, forcing updates.
pub fn fetch_remote(uri: &str) -> (remote: FetchRemote)
    ensures
        remote.name@ == "fetch"@,
        remote.url@ == uri@,
        remote.refspecs@.len() == 2,
        remote.refspecs@[0]@ == "+refs/heads/*:refs/heads/*"@,
        remote.refspecs@[1]@ == "+refs/tags/*:refs/tags/*"@,
{
    let mut refspecs: Vec<String> = Vec::new();
    refspecs.push("+refs/heads/*:refs/heads/*".to_owned());
    refspecs.push("+refs/tags/*:refs/tags/*".to_owned());
    FetchRemote { name: "fetch".to_owned(), url: uri.to_owned(), refspecs }
}

/// The user name that SSH credentials are made for: the one the remote asks
/// for, else `grapple`.
pub fn ssh_username(offered: Option<&str>) -> (name: String)
    ensures
        match offered {
            Some(u) => name@ == u@,
            None => name@ == "grapple"@,
        },
{
    match offered {
        Some(u) => u.to_owned(),
        None => "grapple".to_owned(),
    }
}

/// One transfer that carries out an action: the refspec, and whether it is
/// fetched into the mirror before being pushed.
pub struct Transfer {
    pub refspec: String,
    pub fetch: bool,
}

/// The refspec that carries out an action on `name`: `+name:name` forces the
/// reference to the mirror's id, `:name` deletes it.
pub open spec fn refspec_of(name: Seq<char>, action: RefAction) -> Seq<char> {
    if action == RefAction::Delete {
        seq![':'] + name
    } else {
        seq!['+'] + name + seq![':'] + name
    }
}

/// The transfers that carry out `actions`, one per action, in order: a
/// creation or update is fetched and then pushed; a deletion is only pushed.
pub fn transfers(actions: &Vec<(String, RefAction)>) -> (res: Vec<Transfer>)
    ensures
        res@.len() == actions@.len(),
        forall|i: int|
            #![trigger res@[i]]
            0 <= i < res@.len() ==> res@[i].refspec@ == refspec_of(actions@[i].0@, actions@[i].1)
                && res@[i].fetch == (actions@[i].1 != RefAction::Delete),
        forall|i: int|
            #![trigger res@[i]]
            0 <= i < res@.len() ==> res@[i].refspec@ == if actions@[i].1 == RefAction::Delete {
                seq![':'] + actions@[i].0@
            } else {
                seq!['+'] + actions@[i].0@ + seq![':'] + actions@[i].0@
            },
{
    let mut res: Vec<Transfer> = Vec::new();
    for i in 0..actions.len()
        invariant
            res@.len() == i,
            forall|k: int|
                #![trigger res@[k]]
                0 <= k < i ==> res@[k].refspec@ == refspec_of(actions@[k].0@, actions@[k].1)
                    && res@[k].fetch == (actions@[k].1 != RefAction::Delete),
    {
        proof {
            reveal_strlit("+");
            reveal_strlit(":");
        }
        let name = &actions[i].0;
        let action = actions[i].1;
        let mut refspec = String::new();
        if action == RefAction::Delete {
            refspec.append(":");
            refspec.append(name.as_str());
            proof {
                assert(refspec@ =~= refspec_of(name@, action));
            }
            res.push(Transfer { refspec, fetch: false });
        } else {
            refspec.append("+");
            refspec.append(name.as_str());
            refspec.append(":");
            refspec.append(name.as_str());
            proof {
                assert(refspec@ =~= refspec_of(name@, action));
            }
            res.push(Transfer { refspec, fetch: true });
        }
    }
    res
}

/// What has to happen to one reference of the push remote.
#[derive(Clone, Copy, Debug, PartialEq, Eq, Structural)]
pub enum RefAction {
    Update,
    Create,
    Delete,
}

/// A reference as a remote advertises it: its full name and the id of the
/// object it points to.
pub struct RemoteRef {
    pub name: String,
    pub oid: Vec<u8>,
}

impl View for RemoteRef {
    type V = (Seq<char>, Seq<u8>);

    open spec fn view(&self) -> (Seq<char>, Seq<u8>) {
        (self.name@, self.oid@)
    }
}

impl Clone for RemoteRef {
    fn clone(&self) -> (res: Self)
        ensures
            res@ == self@,
    {
        let oid = self.oid.clone();
        assert(oid@ =~= self.oid@);
        RemoteRef { name: self.name.clone(), oid }
    }
}

/// A table from reference names to object ids.
pub type RefTable = Map<Seq<char>, Seq<u8>>;

pub open spec fn refs_view(refs: Seq<RemoteRef>) -> Seq<(Seq<char>, Seq<u8>)> {
    refs.map_values(|r: RemoteRef| r@)
}

pub open spec fn actions_view(actions: Seq<(String, RefAction)>) -> Seq<(Seq<char>, RefAction)> {
    actions.map_values(|a: (String, RefAction)| (a.0@, a.1))
}

/// The references that are mirrored: those whose name starts with `refs/`.
pub open spec fn is_ref_name(name: Seq<char>) -> bool {
    &&& name.len() >= 5
    &&& name[0] == 'r'
    &&& name[1] == 'e'
    &&& name[2] == 'f'
    &&& name[3] == 's'
    &&& name[4] == '/'
}

/// The mirrored references of a listing, by name; of two entries with one
/// name the later one counts.
pub open spec fn ref_table(refs: Seq<(Seq<char>, Seq<u8>)>) -> RefTable
    decreases refs.len(),
{
    if refs.len() == 0 {
        Map::empty()
    } else {
        let table = ref_table(refs.drop_last());
        let r = refs.last();
        if is_ref_name(r.0) {
            table.insert(r.0, r.1)
        } else {
            table
        }
    }
}

/// Walks the push remote's listing in order against the references still to
/// be mirrored: a reference that the fetch side has with another id is
/// updated, one it does not have is deleted, and each one seen is struck off.
/// Gives the actions and what is left to mirror.
pub open spec fn push_pass(source: RefTable, push: Seq<(Seq<char>, Seq<u8>)>) -> (
    Seq<(Seq<char>, RefAction)>,
    RefTable,
)
    decreases push.len(),
{
    if push.len() == 0 {
        (Seq::empty(), source)
    } else {
        let prev = push_pass(source, push.drop_last());
        let p = push.last();
        if !is_ref_name(p.0) {
            prev
        } else if prev.1.contains_key(p.0) {
            if prev.1[p.0] != p.1 {
                (prev.0.push((p.0, RefAction::Update)), prev.1.remove(p.0))
            } else {
                (prev.0, prev.1.remove(p.0))
            }
        } else {
            (prev.0.push((p.0, RefAction::Delete)), prev.1)
        }
    }
}

/// `actions` is a plan for mirroring the `fetch` listing onto the `push`
/// listing: first the updates and deletions of the push pass, in its order,
/// then one creation for each reference left to mirror, each once, in some
/// order.
pub open spec fn is_mirror_plan(
    fetch: Seq<(Seq<char>, Seq<u8>)>,
    push: Seq<(Seq<char>, Seq<u8>)>,
    actions: Seq<(Seq<char>, RefAction)>,
) -> bool {
    let pass = push_pass(ref_table(fetch), push);
    let n = pass.0.len();
    &&& n <= actions.len()
    &&& actions.take(n as int) == pass.0
    &&& forall|i: int|
        #![trigger actions[i]]
        n <= i < actions.len() ==> actions[i].1 == RefAction::Create && pass.1.contains_key(
            actions[i].0,
        )
    &&& forall|i: int, j: int|
        #![trigger actions[i], actions[j]]
        n <= i < j < actions.len() ==> actions[i].0 != actions[j].0
    &&& forall|k: Seq<char>|
        #![trigger pass.1.contains_key(k)]
        pass.1.contains_key(k) ==> exists|i: int|
            #![trigger actions[i]]
            n <= i < actions.len() && actions[i].0 == k
}

/// `table` lists the entries of `m`, each name once.
pub open spec fn lists_table(table: Seq<(Seq<char>, Seq<u8>)>, m: RefTable) -> bool {
    &&& forall|i: int, j: int|
        #![trigger table[i], table[j]]
        0 <= i < j < table.len() ==> table[i].0 != table[j].0
    &&& forall|i: int|
        #![trigger table[i]]
        0 <= i < table.len() ==> m.contains_key(table[i].0) && m[table[i].0] == table[i].1
    &&& forall|k: Seq<char>|
        #![trigger m.contains_key(k)]
        m.contains_key(k) ==> exists|i: int| #![trigger table[i]] 0 <= i < table.len() && table[i].0 == k
}

proof fn lemma_lists_table_remove(table: Seq<(Seq<char>, Seq<u8>)>, m: RefTable, j: int)
    requires
        lists_table(table, m),
        0 <= j < table.len(),
    ensures
        lists_table(table.remove(j), m.remove(table[j].0)),
{
    let t2 = table.remove(j);
    let m2 = m.remove(table[j].0);
    assert forall|i: int, i2: int| 0 <= i < i2 < t2.len() implies t2[i].0 != t2[i2].0 by {
        let a = if i < j { i } else { i + 1 };
        let b = if i2 < j { i2 } else { i2 + 1 };
        assert(t2[i] == table[a]);
        assert(t2[i2] == table[b]);
    }
    assert forall|i: int| 0 <= i < t2.len() implies m2.contains_key(t2[i].0) && m2[t2[i].0]
        == t2[i].1 by {
        let a = if i < j { i } else { i + 1 };
        assert(t2[i] == table[a]);
        assert(a != j);
    }
    assert forall|k: Seq<char>| m2.contains_key(k) implies exists|i: int|
        #![trigger t2[i]]
        0 <= i < t2.len() && t2[i].0 == k by {
        let a = choose|a: int| #![trigger table[a]] 0 <= a < table.len() && table[a].0 == k;
        assert(a != j);
        let i = if a < j { a } else { a - 1 };
        assert(t2[i] == table[a]);
    }
}

proof fn lemma_lists_table_set(
    table: Seq<(Seq<char>, Seq<u8>)>,
    m: RefTable,
    j: int,
    entry: (Seq<char>, Seq<u8>),
)
    requires
        lists_table(table, m),
        0 <= j < table.len(),
        table[j].0 == entry.0,
    ensures
        lists_table(table.update(j, entry), m.insert(entry.0, entry.1)),
{
    let t2 = table.update(j, entry);
    let m2 = m.insert(entry.0, entry.1);
    assert forall|i: int, i2: int| 0 <= i < i2 < t2.len() implies t2[i].0 != t2[i2].0 by {
        assert(t2[i].0 == table[i].0);
        assert(t2[i2].0 == table[i2].0);
    }
    assert forall|i: int| 0 <= i < t2.len() implies m2.contains_key(t2[i].0) && m2[t2[i].0]
        == t2[i].1 by {
        if i != j {
            assert(table[i].0 != table[j].0 || i == j);
            assert(t2[i] == table[i]);
        }
    }
    assert forall|k: Seq<char>| m2.contains_key(k) implies exists|i: int|
        #![trigger t2[i]]
        0 <= i < t2.len() && t2[i].0 == k by {
        if k == entry.0 {
            assert(t2[j].0 == k);
        } else {
            let a = choose|a: int| #![trigger table[a]] 0 <= a < table.len() && table[a].0 == k;
            assert(t2[a].0 == table[a].0);
        }
    }
}

proof fn lemma_lists_table_push(
    table: Seq<(Seq<char>, Seq<u8>)>,
    m: RefTable,
    entry: (Seq<char>, Seq<u8>),
)
    requires
        lists_table(table, m),
        !m.contains_key(entry.0),
    ensures
        lists_table(table.push(entry), m.insert(entry.0, entry.1)),
{
    let t2 = table.push(entry);
    let m2 = m.insert(entry.0, entry.1);
    assert forall|i: int, i2: int| 0 <= i < i2 < t2.len() implies t2[i].0 != t2[i2].0 by {
        assert(t2[i] == table[i]);
        if i2 < table.len() {
            assert(t2[i2] == table[i2]);
        } else {
            assert(m.contains_key(table[i].0));
        }
    }
    assert forall|i: int| 0 <= i < t2.len() implies m2.contains_key(t2[i].0) && m2[t2[i].0]
        == t2[i].1 by {
        if i < table.len() {
            assert(t2[i] == table[i]);
            assert(m.contains_key(table[i].0));
        }
    }
    assert forall|k: Seq<char>| m2.contains_key(k) implies exists|i: int|
        #![trigger t2[i]]
        0 <= i < t2.len() && t2[i].0 == k by {
        if k == entry.0 {
            assert(t2[table.len() as int].0 == k);
        } else {
            let a = choose|a: int| #![trigger table[a]] 0 <= a < table.len() && table[a].0 == k;
            assert(t2[a] == table[a]);
        }
    }
}

/// A reference is mirrored exactly when its name starts with `refs/`,
/// whatever follows.
pub proof fn lemma_ref_name_prefix(name: Seq<char>)
    ensures
        is_ref_name(name) == (name.len() >= 5 && name.subrange(0, 5) == seq![
            'r',
            'e',
            'f',
            's',
            '/',
        ]),
{
    if name.len() >= 5 {
        let p = seq!['r', 'e', 'f', 's', '/'];
        if name.subrange(0, 5) == p {
            assert(name[0] == name.subrange(0, 5)[0]);
            assert(name[1] == name.subrange(0, 5)[1]);
            assert(name[2] == name.subrange(0, 5)[2]);
            assert(name[3] == name.subrange(0, 5)[3]);
            assert(name[4] == name.subrange(0, 5)[4]);
        }
        if is_ref_name(name) {
            assert(name.subrange(0, 5) =~= p);
        }
    }
}

/// The table of a listing holds exactly the names under `refs/` that the
/// listing has, each with the id of the last entry of that name.
pub proof fn lemma_ref_table_entries(refs: Seq<(Seq<char>, Seq<u8>)>, k: Seq<char>)
    ensures
        ref_table(refs).contains_key(k) == (k.len() >= 5 && k.subrange(0, 5) == seq![
            'r',
            'e',
            'f',
            's',
            '/',
        ] && exists|i: int| #![trigger refs[i]] 0 <= i < refs.len() && refs[i].0 == k),
        ref_table(refs).contains_key(k) ==> exists|i: int|
            #![trigger refs[i]]
            0 <= i < refs.len() && refs[i] == (k, ref_table(refs)[k]) && forall|j: int|
                i < j < refs.len() ==> refs[j].0 != k,
    decreases refs.len(),
{
    lemma_ref_name_prefix(k);
    if refs.len() > 0 {
        let prev = refs.drop_last();
        let last = refs.last();
        assert(last == refs[refs.len() - 1]);
        lemma_ref_table_entries(prev, k);
        if exists|i: int| #![trigger prev[i]] 0 <= i < prev.len() && prev[i].0 == k {
            let i = choose|i: int| #![trigger prev[i]] 0 <= i < prev.len() && prev[i].0 == k;
            assert(refs[i] == prev[i]);
        }
        if exists|i: int| #![trigger refs[i]] 0 <= i < refs.len() && refs[i].0 == k {
            let i = choose|i: int| #![trigger refs[i]] 0 <= i < refs.len() && refs[i].0 == k;
            if i < prev.len() {
                assert(prev[i] == refs[i]);
            }
        }
        if ref_table(refs).contains_key(k) {
            if last.0 == k && is_ref_name(k) {
                assert(refs[refs.len() - 1] == (k, ref_table(refs)[k]));
            } else {
                let i = choose|i: int|
                    #![trigger prev[i]]
                    0 <= i < prev.len() && prev[i] == (k, ref_table(prev)[k]) && forall|j: int|
                        i < j < prev.len() ==> prev[j].0 != k;
                assert(refs[i] == prev[i]);
                assert forall|j: int| i < j < refs.len() implies refs[j].0 != k by {
                    if j < prev.len() {
                        assert(refs[j] == prev[j]);
                    }
                }
            }
        }
    }
}

/// A creation or an update of `name` is carried out with the forced refspec
/// `+name:name`, a deletion with `:name`, whatever the name.
pub proof fn lemma_refspec_shape(name: Seq<char>, action: RefAction)
    ensures
        action != RefAction::Delete ==> {
            let r = refspec_of(name, action);
            &&& r.len() == 2 * name.len() + 2
            &&& r[0] == '+'
            &&& r.subrange(1, name.len() + 1 as int) == name
            &&& r[name.len() + 1 as int] == ':'
            &&& r.subrange(name.len() + 2 as int, r.len() as int) == name
        },
        action == RefAction::Delete ==> {
            let r = refspec_of(name, action);
            &&& r.len() == name.len() + 1
            &&& r[0] == ':'
            &&& r.subrange(1, r.len() as int) == name
        },
{
    let r = refspec_of(name, action);
    if action != RefAction::Delete {
        assert(r.subrange(1, name.len() + 1 as int) =~= name);
        assert(r.subrange(name.len() + 2 as int, r.len() as int) =~= name);
    } else {
        assert(r.subrange(1, r.len() as int) =~= name);
    }
}

/// Whether `name` is the name of a mirrored reference (starts with `refs/`).
pub fn is_mirrored_ref(name: &str) -> (res: bool)
    ensures
        res == is_ref_name(name@),
        res == (name@.len() >= 5 && name@.subrange(0, 5) == seq!['r', 'e', 'f', 's', '/']),
{
    proof {
        lemma_ref_name_prefix(name@);
    }
    if name.unicode_len() < 5 {
        return false;
    }
    name.get_char(0) == 'r' && name.get_char(1) == 'e' && name.get_char(2) == 'f'
        && name.get_char(3) == 's' && name.get_char(4) == '/'
}

/// Whether two object ids are the same.
pub fn same_oid(a: &Vec<u8>, b: &Vec<u8>) -> (res: bool)
    ensures
        res == (a@ == b@),
{
    if a.len() != b.len() {
        return false;
    }
    let mut i: usize = 0;
    while i < a.len()
        invariant
            a.len() == b.len(),
            i <= a.len(),
            forall|j: int| 0 <= j < i ==> a@[j] == b@[j],
        decreases a.len() - i,
    {
        if a[i] != b[i] {
            return false;
        }
        i = i + 1;
    }
    assert(a@ =~= b@);
    true
}

/// Where `name` stands in `table`, if it does.
fn find_ref(table: &Vec<RemoteRef>, name: &String) -> (res: Option<usize>)
    ensures
        match res {
            Some(j) => j < table.len() && table@[j as int].name@ == name@,
            None => forall|j: int| 0 <= j < table.len() ==> table@[j].name@ != name@,
        },
{
    let mut j: usize = 0;
    while j < table.len()
        invariant
            j <= table.len(),
            forall|k: int| 0 <= k < j ==> table@[k].name@ != name@,
        decreases table.len() - j,
    {
        if table[j].name == *name {
            return Some(j);
        }
        j = j + 1;
    }
    None
}

/// The mirrored references of a listing, each name once, with the id that
/// the last entry of that name gives.
fn collect_refs(refs: &Vec<RemoteRef>) -> (table: Vec<RemoteRef>)
    ensures
        lists_table(refs_view(table@), ref_table(refs_view(refs@))),
{
    let mut table: Vec<RemoteRef> = Vec::new();
    let ghost rv = refs_view(refs@);
    for i in 0..refs.len()
        invariant
            rv == refs_view(refs@),
            lists_table(refs_view(table@), ref_table(rv.take(i as int))),
    {
        let ghost before = refs_view(table@);
        proof {
            assert(rv.take(i + 1).drop_last() =~= rv.take(i as int));
            assert(rv.take(i + 1).last() == rv[i as int]);
        }
        let r = &refs[i];
        if is_mirrored_ref(r.name.as_str()) {
            match find_ref(&table, &r.name) {
                Some(j) => {
                    let entry = r.clone();
                    table.set(j, entry);
                    proof {
                        lemma_lists_table_set(before, ref_table(rv.take(i as int)), j as int, r@);
                        assert(refs_view(table@) =~= before.update(j as int, r@));
                    }
                },
                None => {
                    let entry = r.clone();
                    table.push(entry);
                    proof {
                        let m = ref_table(rv.take(i as int));
                        if m.contains_key(r.name@) {
                            let a = choose|a: int|
                                #![trigger before[a]]
                                0 <= a < before.len() && before[a].0 == r.name@;
                            assert(table@[a].name@ == before[a].0);
                        }
                        lemma_lists_table_push(before, m, r@);
                        assert(refs_view(table@) =~= before.push(r@));
                    }
                },
            }
        }
    }
    proof {
        assert(rv.take(refs.len() as int) =~= rv);
    }
    table
}

/// Decides what to do on the push remote so that its mirrored references
/// (those under `refs/`) become those of the fetch remote: a reference that
/// both have with different ids is updated, one only the push remote has is
/// deleted, and one only the fetch remote has is created.
pub fn plan_ref_actions(fetch: &Vec<RemoteRef>, push: &Vec<RemoteRef>) -> (actions: Vec<
    (String, RefAction),
>)
    ensures
        is_mirror_plan(refs_view(fetch@), refs_view(push@), actions_view(actions@)),
{
    let mut table = collect_refs(fetch);
    let ghost source = ref_table(refs_view(fetch@));
    let ghost pv = refs_view(push@);
    let mut actions: Vec<(String, RefAction)> = Vec::new();
    for i in 0..push.len()
        invariant
            pv == refs_view(push@),
            source == ref_table(refs_view(fetch@)),
            actions_view(actions@) == push_pass(source, pv.take(i as int)).0,
            lists_table(refs_view(table@), push_pass(source, pv.take(i as int)).1),
    {
        let ghost before = refs_view(table@);
        let ghost acts_before = actions_view(actions@);
        proof {
            assert(pv.take(i + 1).drop_last() =~= pv.take(i as int));
            assert(pv.take(i + 1).last() == pv[i as int]);
        }
        let p = &push[i];
        if is_mirrored_ref(p.name.as_str()) {
            match find_ref(&table, &p.name) {
                Some(j) => {
                    let differs = !same_oid(&table[j].oid, &p.oid);
                    if differs {
                        actions.push((p.name.clone(), RefAction::Update));
                        proof {
                            assert(actions_view(actions@) =~= acts_before.push(
                                (p.name@, RefAction::Update),
                            ));
                        }
                    }
                    table.remove(j);
                    proof {
                        lemma_lists_table_remove(
                            before,
                            push_pass(source, pv.take(i as int)).1,
                            j as int,
                        );
                        assert(refs_view(table@) =~= before.remove(j as int));
                    }
                },
                None => {
                    actions.push((p.name.clone(), RefAction::Delete));
                    proof {
                        assert(actions_view(actions@) =~= acts_before.push(
                            (p.name@, RefAction::Delete),
                        ));
                    }
                },
            }
        }
    }
    proof {
        assert(pv.take(push.len() as int) =~= pv);
    }
    let ghost pass = push_pass(source, pv);
    let ghost n = actions@.len();
    let ghost tv = refs_view(table@);
    for k in 0..table.len()
        invariant
            pass == push_pass(source, pv),
            tv == refs_view(table@),
            lists_table(tv, pass.1),
            actions@.len() == n + k,
            actions_view(actions@).take(n as int) == pass.0,
            forall|i: int|
                #![trigger actions@[i]]
                n <= i < actions@.len() ==> actions@[i].1 == RefAction::Create && actions@[i].0@
                    == tv[i - n].0,
    {
        let ghost old_actions = actions_view(actions@);
        actions.push((table[k].name.clone(), RefAction::Create));
        proof {
            assert(actions_view(actions@).take(n as int) =~= old_actions.take(n as int));
        }
    }
    proof {
        let av = actions_view(actions@);
        assert forall|i: int| #![trigger av[i]] n <= i < av.len() implies av[i].1
            == RefAction::Create && pass.1.contains_key(av[i].0) by {
            assert(actions@[i].0@ == tv[i - n].0);
        }
        assert forall|i: int, j: int|
            #![trigger av[i], av[j]]
            n <= i < j < av.len() implies av[i].0 != av[j].0 by {
            assert(actions@[i].0@ == tv[i - n].0);
            assert(actions@[j].0@ == tv[j - n].0);
        }
        assert forall|key: Seq<char>| #![trigger pass.1.contains_key(key)] pass.1.contains_key(
            key,
        ) implies exists|i: int| #![trigger av[i]] n <= i < av.len() && av[i].0 == key by {
            let a = choose|a: int| #![trigger tv[a]] 0 <= a < tv.len() && tv[a].0 == key;
            assert(actions@[n + a].0@ == tv[a].0);
            assert(av[n + a].0 == key);
        }
    }
    actions
}

/// The push remote's mirrored references after the actions are carried out in
/// order: a creation or an update sets the reference to the fetch side's id,
/// a deletion removes it.
pub open spec fn apply_actions(
    target: RefTable,
    actions: Seq<(Seq<char>, RefAction)>,
    source: RefTable,
) -> RefTable
    decreases actions.len(),
{
    if actions.len() == 0 {
        target
    } else {
        let m = apply_actions(target, actions.drop_last(), source);
        let a = actions.last();
        if a.1 == RefAction::Delete {
            m.remove(a.0)
        } else {
            m.insert(a.0, source[a.0])
        }
    }
}

/// No two mirrored references of a listing share a name.
pub open spec fn distinct_ref_names(refs: Seq<(Seq<char>, Seq<u8>)>) -> bool {
    forall|i: int, j: int|
        #![trigger refs[i], refs[j]]
        0 <= i < j < refs.len() && is_ref_name(refs[i].0) && is_ref_name(refs[j].0) ==> refs[i].0
            != refs[j].0
}

proof fn lemma_apply_append(
    target: RefTable,
    a: Seq<(Seq<char>, RefAction)>,
    b: Seq<(Seq<char>, RefAction)>,
    source: RefTable,
)
    ensures
        apply_actions(target, a + b, source) == apply_actions(
            apply_actions(target, a, source),
            b,
            source,
        ),
    decreases b.len(),
{
    if b.len() == 0 {
        assert(a + b =~= a);
    } else {
        lemma_apply_append(target, a, b.drop_last(), source);
        assert((a + b).drop_last() =~= a + b.drop_last());
        assert((a + b).last() == b.last());
    }
}

proof fn lemma_apply_insert(
    target: RefTable,
    actions: Seq<(Seq<char>, RefAction)>,
    source: RefTable,
    k: Seq<char>,
    v: Seq<u8>,
)
    requires
        forall|i: int| #![trigger actions[i]] 0 <= i < actions.len() ==> actions[i].0 != k,
    ensures
        apply_actions(target.insert(k, v), actions, source) == apply_actions(
            target,
            actions,
            source,
        ).insert(k, v),
    decreases actions.len(),
{
    if actions.len() > 0 {
        let rest = actions.drop_last();
        assert forall|i: int| #![trigger rest[i]] 0 <= i < rest.len() implies rest[i].0 != k by {
            assert(rest[i] == actions[i]);
        }
        lemma_apply_insert(target, rest, source, k, v);
        let m = apply_actions(target, rest, source);
        let a = actions.last();
        assert(a == actions[actions.len() - 1]);
        if a.1 == RefAction::Delete {
            assert(m.insert(k, v).remove(a.0) =~= m.remove(a.0).insert(k, v));
        } else {
            assert(m.insert(k, v).insert(a.0, source[a.0]) =~= m.insert(a.0, source[a.0]).insert(
                k,
                v,
            ));
        }
    }
}

proof fn lemma_ref_table_keys(refs: Seq<(Seq<char>, Seq<u8>)>, k: Seq<char>)
    requires
        ref_table(refs).contains_key(k),
    ensures
        exists|i: int| #![trigger refs[i]] 0 <= i < refs.len() && refs[i].0 == k && is_ref_name(k),
    decreases refs.len(),
{
    let prev = refs.drop_last();
    if refs.last().0 == k && is_ref_name(k) {
        assert(refs[refs.len() - 1] == refs.last());
    } else {
        lemma_ref_table_keys(prev, k);
        let i = choose|i: int| #![trigger prev[i]] 0 <= i < prev.len() && prev[i].0 == k && is_ref_name(k);
        assert(refs[i] == prev[i]);
    }
}

/// What one push pass achieves: every action names a reference of the push
/// listing; carrying the actions out leaves exactly the fetch side's
/// references among those the push listing names; the references left to
/// mirror are the fetch side's others.
proof fn lemma_push_pass(source: RefTable, push: Seq<(Seq<char>, Seq<u8>)>)
    requires
        distinct_ref_names(push),
    ensures
        ({
            let pass = push_pass(source, push);
            let target = ref_table(push);
            &&& apply_actions(target, pass.0, source) == source.restrict(target.dom())
            &&& pass.1 == source.remove_keys(target.dom())
            &&& forall|i: int|
                #![trigger pass.0[i]]
                0 <= i < pass.0.len() ==> {
                    let name = pass.0[i].0;
                    &&& target.contains_key(name)
                    &&& pass.0[i].1 != RefAction::Create
                    &&& pass.0[i].1 == RefAction::Delete ==> !source.contains_key(name)
                    &&& pass.0[i].1 == RefAction::Update ==> source.contains_key(name)
                        && source[name] != target[name]
                }
        }),
    decreases push.len(),
{
    let target = ref_table(push);
    let pass = push_pass(source, push);
    if push.len() == 0 {
        assert(source.restrict(target.dom()) =~= Map::empty());
        assert(source.remove_keys(target.dom()) =~= source);
    } else {
        let prev_push = push.drop_last();
        assert forall|i: int, j: int|
            #![trigger prev_push[i], prev_push[j]]
            0 <= i < j < prev_push.len() && is_ref_name(prev_push[i].0) && is_ref_name(
                prev_push[j].0,
            ) implies prev_push[i].0 != prev_push[j].0 by {
            assert(prev_push[i] == push[i]);
            assert(prev_push[j] == push[j]);
        }
        lemma_push_pass(source, prev_push);
        let prev = push_pass(source, prev_push);
        let t0 = ref_table(prev_push);
        let p = push.last();
        assert(p == push[push.len() - 1]);
        if is_ref_name(p.0) {
            if t0.contains_key(p.0) {
                lemma_ref_table_keys(prev_push, p.0);
                let i = choose|i: int|
                    #![trigger prev_push[i]]
                    0 <= i < prev_push.len() && prev_push[i].0 == p.0 && is_ref_name(p.0);
                assert(push[i] == prev_push[i]);
                assert(false);
            }
            assert(target == t0.insert(p.0, p.1));
            assert(forall|i: int|
                #![trigger prev.0[i]]
                0 <= i < prev.0.len() ==> prev.0[i].0 != p.0);
            lemma_apply_insert(t0, prev.0, source, p.0, p.1);
            let base = source.restrict(t0.dom());
            assert(apply_actions(target, prev.0, source) == base.insert(p.0, p.1));
            if prev.1.contains_key(p.0) {
                assert(source.contains_key(p.0));
                if prev.1[p.0] != p.1 {
                    assert(pass.0 == prev.0.push((p.0, RefAction::Update)));
                    assert(pass.0.drop_last() =~= prev.0);
                    assert(base.insert(p.0, p.1).insert(p.0, source[p.0]) =~= source.restrict(
                        target.dom(),
                    ));
                } else {
                    assert(base.insert(p.0, p.1) =~= source.restrict(target.dom()));
                }
                assert(prev.1.remove(p.0) =~= source.remove_keys(target.dom()));
            } else {
                assert(!source.contains_key(p.0));
                assert(pass.0 == prev.0.push((p.0, RefAction::Delete)));
                assert(pass.0.drop_last() =~= prev.0);
                assert(base.insert(p.0, p.1).remove(p.0) =~= source.restrict(target.dom()));
                assert(prev.1 =~= source.remove_keys(target.dom()));
            }
            assert forall|i: int| #![trigger pass.0[i]] 0 <= i < pass.0.len() implies ({
                let name = pass.0[i].0;
                &&& target.contains_key(name)
                &&& pass.0[i].1 != RefAction::Create
                &&& pass.0[i].1 == RefAction::Delete ==> !source.contains_key(name)
                &&& pass.0[i].1 == RefAction::Update ==> source.contains_key(name) && source[name]
                    != target[name]
            }) by {
                if i < prev.0.len() {
                    assert(pass.0[i] == prev.0[i]);
                }
            }
        } else {
            assert(target == t0);
            assert(pass == prev);
        }
    }
}

proof fn lemma_apply_creates(
    target: RefTable,
    creates: Seq<(Seq<char>, RefAction)>,
    source: RefTable,
)
    requires
        forall|i: int|
            #![trigger creates[i]]
            0 <= i < creates.len() ==> creates[i].1 == RefAction::Create && source.contains_key(
                creates[i].0,
            ),
    ensures
        apply_actions(target, creates, source) == target.union_prefer_right(
            source.restrict(Set::new(|k: Seq<char>| exists|i: int| #![trigger creates[i]] 0 <= i < creates.len() && creates[i].0 == k)),
        ),
    decreases creates.len(),
{
    let names = Set::new(|k: Seq<char>| exists|i: int| #![trigger creates[i]] 0 <= i < creates.len() && creates[i].0 == k);
    if creates.len() == 0 {
        assert(target.union_prefer_right(source.restrict(names)) =~= target);
    } else {
        let prev = creates.drop_last();
        assert forall|i: int| #![trigger prev[i]] 0 <= i < prev.len() implies prev[i].1 == RefAction::Create && source.contains_key(prev[i].0) by {
            assert(prev[i] == creates[i]);
        }
        lemma_apply_creates(target, prev, source);
        let prev_names = Set::new(|k: Seq<char>| exists|i: int| #![trigger prev[i]] 0 <= i < prev.len() && prev[i].0 == k);
        let last = creates.last();
        assert(last == creates[creates.len() - 1]);
        assert forall|k: Seq<char>| names.contains(k) == (prev_names.contains(k) || k == last.0) by {
            if names.contains(k) {
                let i = choose|i: int| #![trigger creates[i]] 0 <= i < creates.len() && creates[i].0 == k;
                if i < prev.len() {
                    assert(prev[i] == creates[i]);
                }
            }
            if prev_names.contains(k) {
                let i = choose|i: int| #![trigger prev[i]] 0 <= i < prev.len() && prev[i].0 == k;
                assert(prev[i] == creates[i]);
            }
        }
        let m = target.union_prefer_right(source.restrict(prev_names));
        assert(m.insert(last.0, source[last.0]) =~= target.union_prefer_right(source.restrict(names)));
    }
}

/// Carrying out a mirror plan on the push remote leaves it with exactly the
/// fetch remote's mirrored references, each at the fetch remote's id; only
/// references under `refs/` are touched; and each action is needed: a
/// creation is for a reference only the fetch side has, an update for one
/// both have with different ids, a deletion for one only the push side has.
///
/// It holds when the push remote lists each mirrored reference once, as a
/// remote does.
pub proof fn lemma_plan_mirrors(
    fetch: Seq<(Seq<char>, Seq<u8>)>,
    push: Seq<(Seq<char>, Seq<u8>)>,
    actions: Seq<(Seq<char>, RefAction)>,
)
    requires
        distinct_ref_names(push),
        is_mirror_plan(fetch, push, actions),
    ensures
        apply_actions(ref_table(push), actions, ref_table(fetch)) == ref_table(fetch),
        forall|i: int|
            #![trigger actions[i]]
            0 <= i < actions.len() ==> {
                let name = actions[i].0;
                let source = ref_table(fetch);
                let target = ref_table(push);
                &&& is_ref_name(name)
                &&& actions[i].1 == RefAction::Create ==> source.contains_key(name)
                    && !target.contains_key(name)
                &&& actions[i].1 == RefAction::Update ==> source.contains_key(name)
                    && target.contains_key(name) && source[name] != target[name]
                &&& actions[i].1 == RefAction::Delete ==> !source.contains_key(name)
                    && target.contains_key(name)
            },
{
    let source = ref_table(fetch);
    let target = ref_table(push);
    let pass = push_pass(source, push);
    let n = pass.0.len() as int;
    lemma_push_pass(source, push);
    let creates = actions.skip(n);
    assert(actions =~= pass.0 + creates);
    lemma_apply_append(target, pass.0, creates, source);
    assert forall|i: int| #![trigger creates[i]] 0 <= i < creates.len() implies creates[i].1
        == RefAction::Create && source.contains_key(creates[i].0) by {
        assert(creates[i] == actions[n + i]);
    }
    lemma_apply_creates(source.restrict(target.dom()), creates, source);
    let names = Set::new(|k: Seq<char>| exists|i: int| #![trigger creates[i]] 0 <= i < creates.len() && creates[i].0 == k);
    assert forall|k: Seq<char>| names.contains(k) == pass.1.contains_key(k) by {
        if names.contains(k) {
            let i = choose|i: int| #![trigger creates[i]] 0 <= i < creates.len() && creates[i].0 == k;
            assert(creates[i] == actions[n + i]);
        }
        if pass.1.contains_key(k) {
            let i = choose|i: int| #![trigger actions[i]] n <= i < actions.len() && actions[i].0 == k;
            assert(creates[i - n] == actions[i]);
        }
    }
    assert(source.restrict(target.dom()).union_prefer_right(source.restrict(names)) =~= source);
    assert forall|i: int| #![trigger actions[i]] 0 <= i < actions.len() implies {
        let name = actions[i].0;
        &&& is_ref_name(name)
        &&& actions[i].1 == RefAction::Create ==> source.contains_key(name)
            && !target.contains_key(name)
        &&& actions[i].1 == RefAction::Update ==> source.contains_key(name)
            && target.contains_key(name) && source[name] != target[name]
        &&& actions[i].1 == RefAction::Delete ==> !source.contains_key(name)
            && target.contains_key(name)
    } by {
        if i < n {
            assert(actions[i] == pass.0[i]);
            lemma_ref_table_keys(push, actions[i].0);
        } else {
            assert(pass.1.contains_key(actions[i].0));
            lemma_ref_table_keys(fetch, actions[i].0);
        }
    }
}

/// Mirroring is idempotent: once the push remote holds the fetch remote's
/// mirrored references, each listed once, the plan is empty, so a second run
/// changes nothing.
pub proof fn lemma_plan_idempotent(
    fetch: Seq<(Seq<char>, Seq<u8>)>,
    push: Seq<(Seq<char>, Seq<u8>)>,
    actions: Seq<(Seq<char>, RefAction)>,
)
    requires
        distinct_ref_names(push),
        ref_table(push) == ref_table(fetch),
        is_mirror_plan(fetch, push, actions),
    ensures
        actions.len() == 0,
{
    let source = ref_table(fetch);
    let target = ref_table(push);
    let pass = push_pass(source, push);
    lemma_push_pass(source, push);
    if pass.0.len() > 0 {
        let a = pass.0[0];
        assert(target.contains_key(a.0));
        assert(false);
    }
    assert(pass.1 =~= Map::empty());
    if actions.len() > 0 {
        assert(pass.1.contains_key(actions[0].0));
    }
}

} // verus!
