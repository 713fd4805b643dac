//! Where sessions took place, and the projects that this makes.

use crate::tally;
use crate::tally::distinct_names;
use crate::text;
use crate::text::same_text;
use std::path::Path;
use vstd::hash_map::StringHashMap;
use vstd::prelude::*;
use vstd::string::*;

verus! {

// ---------------------------------------------------------------------------
// Rows
// ---------------------------------------------------------------------------

/// A row of the table `project`.
pub struct ProjectRow {
    pub id: String,
    pub worktree: String,
}

/// A row of the table `project`.
pub struct ProjectRowView {
    pub id: Seq<char>,
    pub worktree: Seq<char>,
}

impl DeepView for ProjectRow {
    type V = ProjectRowView;

    open spec fn deep_view(&self) -> ProjectRowView {
        ProjectRowView { id: self.id@, worktree: self.worktree@ }
    }
}

/// A row of the table `session`.
pub struct SessionRow {
    pub id: String,
    pub project_id: String,
    pub directory: String,
}

/// A row of the table `session`.
pub struct SessionRowView {
    pub id: Seq<char>,
    pub project_id: Seq<char>,
    pub directory: Seq<char>,
}

impl DeepView for SessionRow {
    type V = SessionRowView;

    open spec fn deep_view(&self) -> SessionRowView {
        SessionRowView { id: self.id@, project_id: self.project_id@, directory: self.directory@ }
    }
}

// ---------------------------------------------------------------------------
// Projects
// ---------------------------------------------------------------------------

/// The characters behind the last slash.
pub open spec fn after_last_slash(path: Seq<char>) -> Seq<char>
    decreases path.len(),
{
    if path.len() == 0 || path.last() == '/' {
        Seq::empty()
    } else {
        after_last_slash(path.drop_last()).push(path.last())
    }
}

/// The last component of a path whose components are separated by `/`. Slashes at the end do not
/// count, nor does a component that is a single dot. It is empty where the path has no component.
pub open spec fn last_component(path: Seq<char>) -> Seq<char>
    decreases path.len(),
{
    let tail = after_last_slash(path);
    if path.len() == 0 {
        path
    } else if tail.len() == 0 || tail == seq!['.'] {
        last_component(path.drop_last())
    } else {
        tail
    }
}

/// Whether all systems divide a path into the same components: it has no backslash, and it begins
/// neither with two slashes nor with a character and a colon, as the names of drives and of shared
/// directories do on some systems.
pub open spec fn is_plain_path(path: Seq<char>) -> bool {
    &&& !path.contains('\\')
    &&& path.len() >= 2 ==> path[1] != ':'
    &&& path.len() >= 2 ==> !(path[0] == '/' && path[1] == '/')
}

/// The file name in a plain path: its last component, unless there is none or it leads to the
/// parent directory.
pub open spec fn plain_file_name(path: Seq<char>) -> Option<Seq<char>> {
    if last_component(path).len() == 0 || last_component(path) == ".."@ {
        None
    } else {
        Some(last_component(path))
    }
}

/// Whether `found` can be the file name in `path`. A plain path has one on all systems; in another
/// it depends on the system, and is some part of the path.
pub open spec fn is_file_name(path: Seq<char>, found: Option<Seq<char>>) -> bool {
    &&& is_plain_path(path) ==> found == plain_file_name(path)
    &&& found matches Some(name) ==> name.len() > 0 && text::contains_text(path, name)
}

/// Calls `Path::file_name` of the standard library. The contract states its result for the paths
/// that all systems divide alike: their last component, without slashes and single dots at the
/// end, and nothing where there is none or it is `..`. In other paths the separators, and which
/// names of drives may stand in front, depend on the system; there the contract says only that a
/// name is a part of the path with at least one character.
#[verifier::external_body]
fn file_name(path: &str) -> (found: Option<String>)
    ensures
        is_file_name(path@, found.deep_view()),
{
    Path::new(path).file_name().map(|name| name.to_string_lossy().to_string())
}

/// The name of the project in the directory `cwd`, whose file name is `found`: that name, or all of
/// the directory where it has none.
pub open spec fn project_from(cwd: Seq<char>, found: Option<Seq<char>>) -> Seq<char> {
    if cwd.len() == 0 {
        "unknown"@
    } else {
        match found {
            Some(name) => if name.len() > 0 {
                name
            } else {
                cwd
            },
            None => cwd,
        }
    }
}

/// The name of the project in a directory with a plain path.
pub open spec fn project_name(cwd: Seq<char>) -> Seq<char> {
    project_from(cwd, plain_file_name(cwd))
}

/// Whether `found` is an answer of the system for the file name in `path`: one that a call of
/// [`file_name`] can have.
pub closed spec fn is_answer(path: Seq<char>, found: Option<Seq<char>>) -> bool {
    exists|asked: &str, answer: Option<String>| #[trigger]
        call_ensures(file_name, (asked,), answer) && asked@ == path && answer.deep_view() == found
}

/// Whether `name` can be the name of the project in the directory `cwd`: it follows from what the
/// system says is the file name in its path.
pub open spec fn is_project_name(cwd: Seq<char>, name: Seq<char>) -> bool {
    exists|found: Option<Seq<char>>| #[trigger]
        is_file_name(cwd, found) && is_answer(cwd, found) && name == project_from(cwd, found)
}

/// The name of the project in the directory `cwd`, whose file name is `found`.
pub fn project_with_file_name(cwd: &str, found: Option<String>) -> (name: String)
    ensures
        name@ == project_from(cwd@, found.deep_view()),
{
    if cwd.is_empty() {
        return "unknown".to_owned();
    }
    match found {
        Some(name) => if name.as_str().is_empty() {
            cwd.to_owned()
        } else {
            name
        },
        None => cwd.to_owned(),
    }
}

/// The name of the project in the directory `cwd`, as the system divides its path.
pub fn extract_project_from_cwd(cwd: &str) -> (name: String)
    ensures
        is_project_name(cwd@, name@),
        is_plain_path(cwd@) ==> name@ == project_name(cwd@),
{
    let found: Option<String> = file_name(cwd);
    proof {
        assert(call_ensures(file_name, (cwd,), found));
        assert(is_answer(cwd@, found.deep_view()));
    }
    project_with_file_name(cwd, found)
}

/// The worktree of the last row for the project `id`.
pub open spec fn worktree_of(rows: Seq<ProjectRowView>, id: Seq<char>) -> Option<Seq<char>>
    decreases rows.len(),
{
    if rows.len() == 0 {
        None
    } else if rows.last().id == id {
        Some(rows.last().worktree)
    } else {
        worktree_of(rows.drop_last(), id)
    }
}

/// Whether the table `map` holds the worktrees of `rows`.
pub open spec fn holds_worktrees(map: Map<Seq<char>, String>, rows: Seq<ProjectRowView>) -> bool {
    forall|id: Seq<char>|
        match #[trigger] worktree_of(rows, id) {
            Some(worktree) => map.contains_key(id) && map[id]@ == worktree,
            None => !map.contains_key(id),
        }
}

/// The worktrees of the projects, by the name of the project. Of rows with one name the last
/// counts.
pub fn load_project_worktree(rows: &Vec<ProjectRow>) -> (map: StringHashMap<String>)
    ensures
        holds_worktrees(map@, rows.deep_view()),
{
    let ghost all = rows.deep_view();
    let mut map: StringHashMap<String> = StringHashMap::new();
    let mut i: usize = 0;
    while i < rows.len()
        invariant
            i <= rows.len(),
            all == rows.deep_view(),
            holds_worktrees(map@, all.take(i as int)),
        decreases rows.len() - i,
    {
        let ghost before = map@;
        let ghost next = all.take(i + 1);
        proof {
            assert(next.drop_last() =~= all.take(i as int));
            assert(next.last() == rows[i as int].deep_view());
        }
        map.insert(rows[i].id.clone(), rows[i].worktree.clone());
        proof {
            assert forall|id: Seq<char>|
                match #[trigger] worktree_of(next, id) {
                    Some(worktree) => map@.contains_key(id) && map@[id]@ == worktree,
                    None => !map@.contains_key(id),
                } by {
                if id != next.last().id {
                    assert(worktree_of(next, id) == worktree_of(all.take(i as int), id));
                }
            }
        }
        i = i + 1;
    }
    assert(all.take(i as int) =~= all);
    map
}

/// Where a session took place, and the project that this makes.
pub struct SessionMeta {
    pub id: String,
    pub project: String,
    pub project_path: String,
}

/// Where a session took place, and the project that this makes.
pub struct MetaView {
    pub id: Seq<char>,
    pub project: Seq<char>,
    pub project_path: Seq<char>,
}

impl DeepView for SessionMeta {
    type V = MetaView;

    open spec fn deep_view(&self) -> MetaView {
        MetaView { id: self.id@, project: self.project@, project_path: self.project_path@ }
    }
}

/// The directory of a session: its own, unless that is empty or the root; otherwise the worktree of
/// its project, where that is known.
pub open spec fn session_path(
    row: SessionRowView,
    projects: Seq<ProjectRowView>,
) -> Seq<char> {
    if row.directory.len() > 0 && row.directory != "/"@ {
        row.directory
    } else {
        match worktree_of(projects, row.project_id) {
            Some(worktree) => worktree,
            None => ""@,
        }
    }
}

/// Whether `meta` can be what is known of the session in `row`: the name of its project is as the
/// system divides its path.
pub open spec fn is_meta_of(
    meta: MetaView,
    row: SessionRowView,
    projects: Seq<ProjectRowView>,
) -> bool {
    &&& meta.id == row.id
    &&& meta.project_path == session_path(row, projects)
    &&& is_project_name(meta.project_path, meta.project)
}

/// What is known of the session in `row`, whose directory has a plain path.
pub open spec fn meta_of(row: SessionRowView, projects: Seq<ProjectRowView>) -> MetaView {
    MetaView {
        id: row.id,
        project: project_name(session_path(row, projects)),
        project_path: session_path(row, projects),
    }
}

/// The last row for the session `id`.
pub open spec fn row_of(rows: Seq<SessionRowView>, id: Seq<char>) -> SessionRowView
    recommends
        exists|i: int| 0 <= i < rows.len() && rows[i].id == id,
    decreases rows.len(),
{
    if rows.len() <= 1 || rows.last().id == id {
        rows.last()
    } else {
        row_of(rows.drop_last(), id)
    }
}

/// The names in the rows.
pub open spec fn row_ids(rows: Seq<SessionRowView>) -> Seq<Seq<char>> {
    rows.map_values(|row: SessionRowView| row.id)
}

/// Whether `metas` can be what is known of each session, in the order in which they first occur. Of
/// rows with one name the last counts.
pub open spec fn are_metas_of(
    metas: Seq<MetaView>,
    rows: Seq<SessionRowView>,
    projects: Seq<ProjectRowView>,
) -> bool {
    &&& metas.len() == tally::distinct(row_ids(rows)).len()
    &&& forall|i: int|
        0 <= i < metas.len() ==> is_meta_of(
            #[trigger] metas[i],
            row_of(rows, tally::distinct(row_ids(rows))[i]),
            projects,
        )
}

/// Whether the directories of all sessions have plain paths.
pub open spec fn have_plain_paths(
    rows: Seq<SessionRowView>,
    projects: Seq<ProjectRowView>,
) -> bool {
    forall|i: int| 0 <= i < rows.len() ==> is_plain_path(session_path(#[trigger] rows[i], projects))
}

/// What is known of each session, in the order in which they first occur, where their directories
/// have plain paths. Of rows with one name the last counts.
pub open spec fn metas_of(
    rows: Seq<SessionRowView>,
    projects: Seq<ProjectRowView>,
) -> Seq<MetaView> {
    tally::distinct(row_ids(rows)).map_values(|id: Seq<char>| meta_of(row_of(rows, id), projects))
}

/// Finds what is known of the session in `row`.
fn read_meta(
    row: &SessionRow,
    worktrees: &StringHashMap<String>,
    Ghost(projects): Ghost<Seq<ProjectRowView>>,
) -> (meta: SessionMeta)
    requires
        holds_worktrees(worktrees@, projects),
    ensures
        is_meta_of(meta.deep_view(), row.deep_view(), projects),
{
    let own: bool = !row.directory.as_str().is_empty() && !same_text(row.directory.as_str(), "/");
    let project_path: String = if own {
        row.directory.clone()
    } else {
        assert(worktree_of(projects, row.project_id@) is Some ==> worktrees@.contains_key(
            row.project_id@,
        ));
        match worktrees.get(row.project_id.as_str()) {
            Some(worktree) => worktree.clone(),
            None => "".to_owned(),
        }
    };
    SessionMeta {
        id: row.id.clone(),
        project: extract_project_from_cwd(project_path.as_str()),
        project_path,
    }
}

/// Finds what is known of each session.
pub fn load_session_meta(
    rows: &Vec<SessionRow>,
    projects: &Vec<ProjectRow>,
) -> (metas: Vec<SessionMeta>)
    ensures
        are_metas_of(metas.deep_view(), rows.deep_view(), projects.deep_view()),
        have_plain_paths(rows.deep_view(), projects.deep_view()) ==> metas.deep_view() == metas_of(
            rows.deep_view(),
            projects.deep_view(),
        ),
{
    let ghost all = rows.deep_view();
    let worktrees: StringHashMap<String> = load_project_worktree(projects);
    let mut ids: Vec<String> = Vec::new();
    let mut last: StringHashMap<usize> = StringHashMap::new();
    let mut i: usize = 0;
    while i < rows.len()
        invariant
            i <= rows.len(),
            all == rows.deep_view(),
            ids.deep_view() == row_ids(all).take(i as int),
            forall|k: int| 0 <= k < i ==> last@.contains_key((#[trigger] all[k]).id),
            forall|id: Seq<char>| #[trigger]
                last@.contains_key(id) ==> last@[id] < i && row_of(all.take(i as int), id)
                    == all[last@[id] as int] && all[last@[id] as int].id == id,
        decreases rows.len() - i,
    {
        let ghost before = ids.deep_view();
        let ghost known = last@;
        let ghost next = all.take(i + 1);
        proof {
            assert(next.drop_last() =~= all.take(i as int));
            assert(next.last() == rows[i as int].deep_view());
        }
        ids.push(rows[i].id.clone());
        last.insert(rows[i].id.clone(), i);
        proof {
            assert(ids.deep_view() =~= before.push(row_ids(all)[i as int]));
            assert(ids.deep_view() =~= row_ids(all).take(i + 1));
            assert forall|id: Seq<char>| #[trigger] last@.contains_key(id) implies last@[id] < i + 1
                && row_of(next, id) == all[last@[id] as int] && all[last@[id] as int].id == id by {
                if id != next.last().id {
                    assert(known.contains_key(id));
                    assert(next.len() > 1);
                }
            }
        }
        i = i + 1;
    }
    proof {
        assert(all.take(i as int) =~= all);
        assert(row_ids(all).take(i as int) =~= row_ids(all));
    }
    let distinct: Vec<String> = distinct_names(&ids);
    let ghost wanted = distinct.deep_view();
    let mut metas: Vec<SessionMeta> = Vec::new();
    let mut j: usize = 0;
    while j < distinct.len()
        invariant
            j <= distinct.len(),
            all == rows.deep_view(),
            wanted == distinct.deep_view(),
            wanted == tally::distinct(row_ids(all)),
            holds_worktrees(worktrees@, projects.deep_view()),
            forall|k: int| 0 <= k < all.len() ==> last@.contains_key((#[trigger] all[k]).id),
            forall|id: Seq<char>| #[trigger]
                last@.contains_key(id) ==> last@[id] < all.len() && row_of(all, id)
                    == all[last@[id] as int],
            metas.len() == j,
            forall|k: int|
                0 <= k < j ==> is_meta_of(
                    #[trigger] metas.deep_view()[k],
                    row_of(all, wanted[k]),
                    projects.deep_view(),
                ),
        decreases distinct.len() - j,
    {
        let ghost before = metas.deep_view();
        let id: &str = distinct[j].as_str();
        proof {
            assert(wanted[j as int] == id@);
            assert(wanted.contains(id@));
            tally::distinct_members(row_ids(all), id@);
            let k = choose|k: int| 0 <= k < row_ids(all).len() && row_ids(all)[k] == id@;
            assert(all[k].id == id@);
        }
        if let Some(at) = last.get(id) {
            let row: &SessionRow = &rows[*at];
            assert(all[*at as int] == row.deep_view());
            metas.push(read_meta(row, &worktrees, Ghost(projects.deep_view())));
            assert(metas.deep_view().drop_last() =~= before);
        }
        proof {
            assert forall|k: int| 0 <= k < j + 1 implies is_meta_of(
                #[trigger] metas.deep_view()[k],
                row_of(all, wanted[k]),
                projects.deep_view(),
            ) by {
                if k < j {
                    assert(metas.deep_view()[k] == before[k]);
                }
            }
        }
        j = j + 1;
    }
    proof {
        if have_plain_paths(all, projects.deep_view()) {
            plain_paths_settle_metas(metas.deep_view(), all, projects.deep_view());
        }
    }
    metas
}

// ---------------------------------------------------------------------------
// Laws
// ---------------------------------------------------------------------------

proof fn after_last_slash_has_none(path: Seq<char>)
    ensures
        !after_last_slash(path).contains('/'),
    decreases path.len(),
{
    if path.len() > 0 && path.last() != '/' {
        after_last_slash_has_none(path.drop_last());
        let tail = after_last_slash(path.drop_last());
        assert forall|i: int| 0 <= i < tail.push(path.last()).len() implies tail.push(
            path.last(),
        )[i] != '/' by {
            if i < tail.len() {
                assert(tail.contains(tail[i]));
            }
        }
    }
}

proof fn last_component_has_no_slash(path: Seq<char>)
    ensures
        !last_component(path).contains('/'),
    decreases path.len(),
{
    after_last_slash_has_none(path);
    if path.len() > 0 {
        last_component_has_no_slash(path.drop_last());
    }
}

/// A project has a name. In a directory with a plain path the name has no slash in it, unless it is
/// the whole directory.
pub proof fn project_has_a_name(cwd: Seq<char>, name: Seq<char>)
    requires
        is_project_name(cwd, name),
    ensures
        name.len() > 0,
        is_plain_path(cwd) ==> name == cwd || !name.contains('/'),
{
    reveal_strlit("unknown");
    last_component_has_no_slash(cwd);
    if cwd.len() == 0 {
        assert forall|i: int| 0 <= i < "unknown"@.len() implies "unknown"@[i] != '/' by {}
    }
}

proof fn row_of_is_a_row(rows: Seq<SessionRowView>, id: Seq<char>)
    requires
        rows.len() > 0,
    ensures
        rows.contains(row_of(rows, id)),
    decreases rows.len(),
{
    assert(rows.contains(rows[rows.len() - 1]));
    if rows.len() > 1 && rows.last().id != id {
        let front = rows.drop_last();
        row_of_is_a_row(front, id);
        let i = choose|i: int| 0 <= i < front.len() && front[i] == row_of(front, id);
        assert(rows[i] == row_of(rows, id));
    }
}

/// Where the directories have plain paths, what is known of the sessions does not depend on the
/// system.
pub proof fn plain_paths_settle_metas(
    metas: Seq<MetaView>,
    rows: Seq<SessionRowView>,
    projects: Seq<ProjectRowView>,
)
    requires
        are_metas_of(metas, rows, projects),
        have_plain_paths(rows, projects),
    ensures
        metas == metas_of(rows, projects),
{
    let ids = tally::distinct(row_ids(rows));
    assert forall|i: int| 0 <= i < metas.len() implies metas[i] == #[trigger] metas_of(
        rows,
        projects,
    )[i] by {
        assert(ids.contains(ids[i]));
        tally::distinct_members(row_ids(rows), ids[i]);
        let row = row_of(rows, ids[i]);
        row_of_is_a_row(rows, ids[i]);
        let k = choose|k: int| 0 <= k < rows.len() && rows[k] == row;
        assert(is_plain_path(session_path(rows[k], projects)));
        assert(is_meta_of(metas[i], row, projects));
    }
    assert(metas =~= metas_of(rows, projects));
}

/// Whether row `j` is the last one for the project `id`.
pub open spec fn is_last_project_row(rows: Seq<ProjectRowView>, j: int, id: Seq<char>) -> bool {
    &&& 0 <= j < rows.len()
    &&& rows[j].id == id
    &&& forall|k: int| j < k < rows.len() ==> (#[trigger] rows[k]).id != id
}

proof fn worktree_is_of_last_row(rows: Seq<ProjectRowView>, id: Seq<char>)
    ensures
        worktree_of(rows, id) is None ==> forall|k: int|
            0 <= k < rows.len() ==> (#[trigger] rows[k]).id != id,
        worktree_of(rows, id) matches Some(worktree) ==> exists|j: int| #[trigger]
            is_last_project_row(rows, j, id) && rows[j].worktree == worktree,
    decreases rows.len(),
{
    if rows.len() > 0 {
        let front = rows.drop_last();
        let n = rows.len() - 1;
        worktree_is_of_last_row(front, id);
        assert(rows[n] == rows.last());
        if rows[n].id == id {
            assert(is_last_project_row(rows, n, id));
        } else if worktree_of(rows, id) is Some {
            let j = choose|j: int| #[trigger]
                is_last_project_row(front, j, id) && front[j].worktree == worktree_of(rows, id)->0;
            assert forall|k: int| j < k < rows.len() implies (#[trigger] rows[k]).id != id by {
                if k < n {
                    assert(front[k] == rows[k]);
                }
            }
            assert(is_last_project_row(rows, j, id));
        } else {
            assert forall|k: int| 0 <= k < rows.len() implies (#[trigger] rows[k]).id != id by {
                if k < n {
                    assert(front[k] == rows[k]);
                }
            }
        }
    }
}

/// A session took place in its own directory, where it names one other than the root. Otherwise it
/// took place in the worktree of its project, as the last row of the project has it, and where there
/// is none at no known place.
pub proof fn sessions_take_place_in_their_directory(
    row: SessionRowView,
    projects: Seq<ProjectRowView>,
    j: int,
)
    ensures
        row.directory.len() > 0 && row.directory != seq!['/'] ==> session_path(row, projects)
            == row.directory,
        (row.directory.len() == 0 || row.directory == seq!['/']) && is_last_project_row(
            projects,
            j,
            row.project_id,
        ) ==> session_path(row, projects) == projects[j].worktree,
        (row.directory.len() == 0 || row.directory == seq!['/']) && (forall|k: int|
            0 <= k < projects.len() ==> (#[trigger] projects[k]).id != row.project_id)
            ==> session_path(row, projects).len() == 0,
{
    reveal_strlit("/");
    reveal_strlit("");
    assert("/"@ =~= seq!['/']);
    worktree_is_of_last_row(projects, row.project_id);
    if is_last_project_row(projects, j, row.project_id) && worktree_of(projects, row.project_id)
        is Some {
        let k = choose|k: int| #[trigger]
            is_last_project_row(projects, k, row.project_id) && projects[k].worktree == worktree_of(
                projects,
                row.project_id,
            )->0;
        if j < k {
            assert(projects[k].id == row.project_id);
        } else if k < j {
            assert(projects[j].id == row.project_id);
        }
    }
}

/// Whether `name` can be the name of a directory: it has no slash, and is neither empty nor one of
/// the names for the directory itself and for its parent.
pub open spec fn is_directory_name(name: Seq<char>) -> bool {
    &&& name.len() > 0
    &&& !name.contains('/')
    &&& name != seq!['.']
    &&& name != seq!['.', '.']
}

proof fn after_last_slash_of(dir: Seq<char>, name: Seq<char>)
    requires
        !name.contains('/'),
        dir.len() == 0 || dir.last() == '/',
    ensures
        after_last_slash(dir + name) == name,
    decreases name.len(),
{
    if name.len() == 0 {
        assert(dir + name =~= dir);
        assert(after_last_slash(dir + name) =~= name);
    } else {
        let front = name.drop_last();
        assert forall|i: int| 0 <= i < front.len() implies front[i] != '/' by {
            assert(name.contains(name[i]));
        }
        after_last_slash_of(dir, front);
        assert((dir + name).drop_last() =~= dir + front);
        assert(name.contains(name[name.len() - 1]));
        assert(after_last_slash(dir + name) =~= name);
    }
}

/// The project in a directory has the name of that directory, with or without a slash or a dot
/// behind it, and wherever the directory lies.
pub proof fn projects_have_the_name_of_their_directory(dir: Seq<char>, name: Seq<char>)
    requires
        is_directory_name(name),
        dir.len() == 0 || dir.last() == '/',
    ensures
        project_name(dir + name) == name,
        project_name(dir + name + seq!['/']) == name,
        project_name(dir + name + seq!['/', '.']) == name,
{
    let path = dir + name;
    let slashed = path + seq!['/'];
    let dotted = path + seq!['/', '.'];
    reveal_strlit("..");
    assert(".."@ =~= seq!['.', '.']);
    after_last_slash_of(dir, name);
    assert(last_component(path) == name);
    assert(slashed.drop_last() =~= path);
    assert(after_last_slash(slashed).len() == 0);
    assert(last_component(slashed) == last_component(path));
    assert(dotted.drop_last() =~= slashed);
    assert(!seq!['.'].contains('/'));
    after_last_slash_of(slashed, seq!['.']);
    assert(slashed + seq!['.'] =~= dotted);
    assert(last_component(dotted) == last_component(slashed));
}

/// What names no directory is the name of its project itself: no path at all is unknown, and the
/// root and what leads to a parent are named in full.
pub proof fn other_paths_are_named_in_full(dir: Seq<char>)
    requires
        dir.len() == 0 || dir.last() == '/',
    ensures
        project_name(Seq::empty()) == "unknown"@,
        project_name(seq!['/']) == seq!['/'],
        project_name(dir + seq!['.', '.']) == dir + seq!['.', '.'],
{
    reveal_strlit("..");
    reveal_with_fuel(last_component, 3);
    assert(".."@ =~= seq!['.', '.']);
    assert(!seq!['.', '.'].contains('/'));
    after_last_slash_of(dir, seq!['.', '.']);
    assert(seq!['.', '.'].len() == 2);
    assert(seq!['/'].drop_last() =~= Seq::<char>::empty());
}

/// The known sessions are those of the rows, each once: with the name of a row, and with the
/// directory of the last row of that name.
pub proof fn metas_are_those_of_rows(
    metas: Seq<MetaView>,
    rows: Seq<SessionRowView>,
    projects: Seq<ProjectRowView>,
    r: int,
)
    requires
        are_metas_of(metas, rows, projects),
        0 <= r < rows.len(),
    ensures
        forall|i: int, j: int|
            0 <= i < metas.len() && 0 <= j < metas.len() && i != j ==> (#[trigger] metas[i]).id != (
            #[trigger] metas[j]).id,
        forall|i: int|
            0 <= i < metas.len() ==> exists|k: int|
                0 <= k < rows.len() && rows[k].id == (#[trigger] metas[i]).id
                    && metas[i].project_path == session_path(#[trigger] rows[k], projects),
        exists|i: int|
            0 <= i < metas.len() && (#[trigger] metas[i]).id == rows[r].id && ((forall|k: int|
                r < k < rows.len() ==> (#[trigger] rows[k]).id != rows[r].id)
                ==> metas[i].project_path == session_path(rows[r], projects)),
{
    let ids = tally::distinct(row_ids(rows));
    tally::distinct_unique(row_ids(rows));
    assert forall|i: int| 0 <= i < metas.len() implies (#[trigger] metas[i]).id == ids[i]
        && exists|k: int|
            0 <= k < rows.len() && rows[k].id == metas[i].id && metas[i].project_path
                == session_path(#[trigger] rows[k], projects) by {
        assert(ids.contains(ids[i]));
        tally::distinct_members(row_ids(rows), ids[i]);
        row_of_has_id(rows, ids[i]);
        row_of_is_a_row(rows, ids[i]);
        let k = choose|k: int| 0 <= k < rows.len() && rows[k] == row_of(rows, ids[i]);
        assert(is_meta_of(metas[i], rows[k], projects));
    }
    assert(row_ids(rows)[r] == rows[r].id);
    assert(row_ids(rows).contains(rows[r].id));
    tally::distinct_members(row_ids(rows), rows[r].id);
    let i = choose|i: int| 0 <= i < ids.len() && ids[i] == rows[r].id;
    assert(metas[i].id == ids[i]);
    if forall|k: int| r < k < rows.len() ==> (#[trigger] rows[k]).id != rows[r].id {
        row_of_last(rows, r);
        assert(is_meta_of(metas[i], rows[r], projects));
    }
}

proof fn row_of_has_id(rows: Seq<SessionRowView>, id: Seq<char>)
    requires
        row_ids(rows).contains(id),
    ensures
        rows.len() > 0,
        row_of(rows, id).id == id,
    decreases rows.len(),
{
    let i = choose|i: int| 0 <= i < row_ids(rows).len() && row_ids(rows)[i] == id;
    if rows.last().id != id {
        let front = rows.drop_last();
        assert(row_ids(front)[i] == id);
        row_of_has_id(front, id);
    }
}

proof fn row_of_last(rows: Seq<SessionRowView>, r: int)
    requires
        0 <= r < rows.len(),
        forall|k: int| r < k < rows.len() ==> (#[trigger] rows[k]).id != rows[r].id,
    ensures
        row_of(rows, rows[r].id) == rows[r],
    decreases rows.len(),
{
    let n = rows.len() - 1;
    if r < n {
        let front = rows.drop_last();
        assert(rows[n].id != rows[r].id);
        assert forall|k: int| r < k < front.len() implies (#[trigger] front[k]).id != front[r].id by {
            assert(front[k] == rows[k]);
        }
        row_of_last(front, r);
    }
}

/// The view of what is known of a session is its fields.
pub proof fn metas_show_their_fields(meta: SessionMeta)
    ensures
        meta.deep_view().id == meta.id@,
        meta.deep_view().project == meta.project@,
        meta.deep_view().project_path == meta.project_path@,
{
}

/// The name of a project is the file name in its directory, where that has one, and all of the
/// directory otherwise; without a directory it is unknown.
pub proof fn projects_are_named_after_files(cwd: Seq<char>, name: Seq<char>)
    ensures
        cwd.len() > 0 && name.len() > 0 ==> project_from(cwd, Some(name)) == name,
        cwd.len() > 0 ==> project_from(cwd, Some(Seq::empty())) == cwd,
        cwd.len() > 0 ==> project_from(cwd, None) == cwd,
        cwd.len() == 0 ==> project_from(cwd, Some(name)) == "unknown"@ && project_from(cwd, None)
            == "unknown"@,
{
}

/// A slash behind a path, or a slash and a dot, leads to no other component.
pub proof fn slashes_and_dots_at_the_end_do_not_count(path: Seq<char>)
    requires
        path.len() > 0,
    ensures
        last_component(path + seq!['/']) == last_component(path),
        last_component(path + seq!['/', '.']) == last_component(path),
{
    let slashed = path + seq!['/'];
    let dotted = path + seq!['/', '.'];
    assert(slashed.drop_last() =~= path);
    assert(after_last_slash(slashed).len() == 0);
    assert(dotted.drop_last() =~= slashed);
    assert(!seq!['.'].contains('/'));
    after_last_slash_of(slashed, seq!['.']);
    assert(slashed + seq!['.'] =~= dotted);
}

/// What a call of [`file_name`] gives is an answer of the system for the path that was asked for, as it
/// is, and nothing else is one.
proof fn answers_of_the_system_are_taken_as_they_are(asked: &str, answer: Option<String>)
    ensures
        call_ensures(file_name, (asked,), answer) ==> is_answer(asked@, answer.deep_view()),
        is_answer(asked@, answer.deep_view()) ==> exists|path: &str, other: Option<String>|
            #[trigger]
            call_ensures(file_name, (path,), other) && path@ == asked@ && other.deep_view()
                == answer.deep_view(),
{
}

} // verus!
