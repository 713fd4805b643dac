//! The databases of opencode, and which of them are read.

use vstd::prelude::*;
use vstd::string::*;

verus! {

/// Why no history can be read.
pub enum HistoryError {
    /// The directory holds no database.
    NotFound {
        dir: String,
    },
}

/// What is told to a user whose directory `dir` holds no database.
pub open spec fn not_found_message(dir: Seq<char>) -> Seq<char> {
    "opencode の履歴データが見つかりません: "@ + dir + "\n\n"@
        + "opencode を使用すると、セッションは opencode.db (または opencode-dev.db)\n"@
        + "の SQLite に保存されます。\n"@
        + "カスタムディレクトリを指定する場合は --opencode-dir オプションを使用してください。"@
}

impl HistoryError {
    /// The text for the user.
    pub fn message(&self) -> (text: String)
        ensures
            self matches HistoryError::NotFound { dir } && text@ == not_found_message(dir@),
    {
        match self {
            HistoryError::NotFound { dir } => {
                let mut text: String = "opencode の履歴データが見つかりません: ".to_owned();
                text.append(dir.as_str());
                text.append("\n\n");
                text.append("opencode を使用すると、セッションは opencode.db (または opencode-dev.db)\n");
                text.append("の SQLite に保存されます。\n");
                text.append(
                    "カスタムディレクトリを指定する場合は --opencode-dir オプションを使用してください。",
                );
                text
            },
        }
    }
}

/// The database of the released program.
pub const PROD_DB: &'static str = "opencode.db";

/// The database of a development build.
pub const DEV_DB: &'static str = "opencode-dev.db";

/// The databases that are there, of the two that opencode can have: that of the released program
/// before that of a development build.
pub open spec fn present_files<P>(prod: Option<P>, dev: Option<P>) -> Seq<P> {
    (match prod {
        Some(path) => seq![path],
        None => Seq::empty(),
    }) + (match dev {
        Some(path) => seq![path],
        None => Seq::empty(),
    })
}

/// The databases to read in the directory `opencode_dir`, in the order of their priority. The paths
/// of `PROD_DB` and of `DEV_DB` in that directory are given where these files are there, in
/// whatever form the system writes paths. It is an error where neither is.
pub fn discover_history_files<P>(
    opencode_dir: &str,
    prod: Option<P>,
    dev: Option<P>,
) -> (files: Result<Vec<P>, HistoryError>)
    ensures
        match files {
            Ok(paths) => (prod is Some || dev is Some) && paths@ == present_files(prod, dev),
            Err(HistoryError::NotFound { dir }) => prod is None && dev is None && dir@
                == opencode_dir@,
        },
{
    let ghost all = present_files(prod, dev);
    let mut files: Vec<P> = Vec::new();
    if let Some(path) = prod {
        files.push(path);
    }
    if let Some(path) = dev {
        files.push(path);
    }
    assert(files@ =~= all);
    if files.len() == 0 {
        return Err(HistoryError::NotFound { dir: opencode_dir.to_owned() });
    }
    Ok(files)
}

/// The database of the released program is read before that of a development build.
pub proof fn released_comes_first<P>(prod: P, dev: P)
    ensures
        present_files(Some(prod), Some(dev)) == seq![prod, dev],
{
    assert(present_files(Some(prod), Some(dev)) =~= seq![prod, dev]);
}

/// Where no database is there the user is told so, in which directory it was looked for, what the two
/// are called, and how another directory is chosen.
pub proof fn users_are_told_where_was_looked(dir: Seq<char>)
    ensures
        ({
            let lines = "opencode を使用すると、セッションは opencode.db (または opencode-dev.db)\n"@
                + "の SQLite に保存されます。\n"@
                + "カスタムディレクトリを指定する場合は --opencode-dir オプションを使用してください。"@;
            not_found_message(dir) == "opencode の履歴データが見つかりません: "@ + dir + "\n\n"@ + lines
        }),
{
    let a = "opencode を使用すると、セッションは opencode.db (または opencode-dev.db)\n"@;
    let b = "の SQLite に保存されます。\n"@;
    let c = "カスタムディレクトリを指定する場合は --opencode-dir オプションを使用してください。"@;
    let head = "opencode の履歴データが見つかりません: "@ + dir + "\n\n"@;
    assert(head + a + b + c =~= head + (a + b + c));
}

/// Exactly the databases that are there are read.
pub proof fn databases_that_are_there_are_read<P>(prod: P, dev: P)
    ensures
        present_files(Some(prod), None) == seq![prod],
        present_files(None, Some(dev)) == seq![dev],
        present_files::<P>(None, None).len() == 0,
        PROD_DB@ == "opencode.db"@,
        DEV_DB@ == "opencode-dev.db"@,
{
    assert(present_files(Some(prod), None) =~= seq![prod]);
    assert(present_files(None, Some(dev)) =~= seq![dev]);
}

} // verus!
