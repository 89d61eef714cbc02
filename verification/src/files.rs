//! The log files of a project: which there are, which is the newest, and how a
//! name becomes a path that may be opened.
//!
//! Reading a directory is the caller's; what it saw is handed in.

use vstd::prelude::*;
use vstd::string::*;

use crate::paths::{
    all_plain, below, is_below, is_left_open, is_logs_dir, is_plain_name, is_under, logs_dir,
    may_be_same_path, may_name_a_drive, path_join, rooted, same_path,
};
use crate::text::{
    comes_before, contains_text, ends_with, has_char, has_end, has_text,
    lemma_text_before_is_an_order, occurs_at, same_text, text_before,
};

verus! {

/// One file inside a project's `storage/logs/`.
#[derive(Debug, PartialEq, Eq)]
pub struct LogFile {
    pub name: String,
    pub bytes: u64,
    /// Last-modified time, seconds since the Unix epoch.
    pub modified: u64,
}

/// A log file as text.
#[verifier::ext_equal]
pub struct LogFileModel {
    pub name: Seq<char>,
    pub bytes: u64,
    pub modified: u64,
}

impl View for LogFile {
    type V = LogFileModel;

    open spec fn view(&self) -> LogFileModel {
        LogFileModel { name: self.name@, bytes: self.bytes, modified: self.modified }
    }
}

impl Clone for LogFile {
    fn clone(&self) -> (copy: Self)
        ensures
            copy@ == self@,
    {
        LogFile { name: self.name.clone(), bytes: self.bytes, modified: self.modified }
    }
}

/// A point in time: whole seconds since the Unix epoch, rounded down, and the
/// nanoseconds after them.
#[derive(Debug, Clone, Copy, PartialEq, Eq)]
pub struct Moment {
    pub seconds: i64,
    pub nanos: u32,
}

/// What is known of a directory entry.
#[derive(Debug, Clone, Copy, PartialEq, Eq)]
pub struct FileMeta {
    pub is_file: bool,
    pub bytes: u64,
    /// Absent where the platform does not tell.
    pub modified: Option<Moment>,
}

/// An entry of a directory that was read: its name, and what is known of it
/// where that could be read too.
#[derive(Debug, PartialEq, Eq)]
pub struct Listing {
    pub name: String,
    pub meta: Option<FileMeta>,
}

/// A directory entry as text.
#[verifier::ext_equal]
pub struct ListingModel {
    pub name: Seq<char>,
    pub meta: Option<FileMeta>,
}

impl View for Listing {
    type V = ListingModel;

    open spec fn view(&self) -> ListingModel {
        ListingModel { name: self.name@, meta: self.meta }
    }
}

/// The entries of a directory, as text.
pub open spec fn listing_views(seen: Seq<Listing>) -> Seq<ListingModel> {
    seen.map_values(|listing: Listing| listing@)
}

/// The files of a list, as text.
pub open spec fn file_views(files: Seq<LogFile>) -> Seq<LogFileModel> {
    files.map_values(|file: LogFile| file@)
}

/// Whether a name is that of a log: it ends in `.log` and is not hidden.
pub open spec fn names_a_log(name: Seq<char>) -> bool {
    &&& !(name.len() > 0 && name[0] == '.')
    &&& ends_with(name, ".log"@)
}

/// A `storage/logs` entry that may be read: `laravel.log`,
/// `laravel-YYYY-MM-DD.log`, or anything else with a `.log` suffix. Dotfiles
/// are skipped.
pub fn is_log_name(name: &str) -> (is: bool)
    ensures
        is == names_a_log(name@),
{
    let hidden = name.unicode_len() > 0 && name.get_char(0) == '.';
    !hidden && has_end(name, ".log")
}

/// Whether a name stays inside the directory it is looked up in.
pub open spec fn is_confined(name: Seq<char>) -> bool {
    &&& !name.contains('/')
    &&& !name.contains('\\')
    &&& !name.contains('\0')
    &&& !contains_text(name, ".."@)
}

/// What is said of a name that is not a log file's.
pub open spec fn not_a_log_text(name: Seq<char>) -> Seq<char> {
    "`"@ + name + "` is not a log file name"@
}

/// Whether this is what a name supplied from outside becomes: a path right under
/// the directory, or the reason it is refused.
///
/// Refused is what is not a log's name or would leave the directory, and a name
/// that begins with a drive where there are drives.
pub open spec fn resolves_name(
    dir: Seq<char>,
    name: Seq<char>,
    path: Result<String, String>,
) -> bool {
    match path {
        Ok(path) => {
            &&& names_a_log(name)
            &&& is_confined(name)
            &&& is_left_open(dir, name) || is_under(dir, name, path@)
        },
        Err(reason) => {
            &&& reason@ == not_a_log_text(name)
            &&& names_a_log(name) && is_confined(name) ==> dir.len() > 0 && (may_name_a_drive(name)
                || is_left_open(dir, name))
        },
    }
}

/// A file name supplied from outside, turned into a path that may be opened.
///
/// Name only: no separator, no `..`, no absolute path, no drive, so that it
/// cannot escape the folder the user registered.
pub fn resolve_named(dir: &str, name: &str) -> (path: Result<String, String>)
    ensures
        resolves_name(dir@, name@, path),
{
    let refused = !is_log_name(name) || has_char(name, '/') || has_char(name, '\\') || has_char(
        name,
        '\0',
    ) || has_text(name, "..");
    if !refused {
        let path = path_join(dir, name);
        // A name that takes the place of the directory begins with a drive.
        if dir.unicode_len() == 0 || !same_text(path.as_str(), name) {
            proof {
                if dir@.len() == 0 {
                    assert(dir@ + name@ =~= name@);
                }
            }
            return Ok(path);
        }
        proof {
            lemma_longer_under(dir@, name@);
        }
    }
    let mut reason = String::from_str("`");
    reason.append(name);
    reason.append("` is not a log file name");
    Err(reason)
}

/// What is right under a directory that is not empty is longer than its name.
proof fn lemma_longer_under(dir: Seq<char>, name: Seq<char>)
    requires
        dir.len() > 0,
    ensures
        !is_under(dir, name, name),
{
    assert((dir + name).len() > name.len());
    assert(below(dir, '/', name).len() > name.len());
    assert(below(dir, '\\', name).len() > name.len());
}

/// A name that is accepted is plain, and its path is right under the directory
/// it was looked up in: nothing but at most one separator stands between them.
pub proof fn an_accepted_name_stays_in_its_directory(
    dir: Seq<char>,
    name: Seq<char>,
    path: Result<String, String>,
)
    requires
        resolves_name(dir, name, path),
        path is Ok,
        !(dir.len() > 1 && dir[0] == '\\' && dir[1] == '\\'),
    ensures
        is_plain_name(name),
        path matches Ok(path) && (path@ == dir + name || path@ == below(dir, '/', name) || path@
            == below(dir, '\\', name)),
{
    reveal_strlit(".log");
    assert(name.subrange(name.len() - 4, name.len() as int)[3] == 'g');
    assert(name[name.len() - 1] == 'g');
    if name[0] == '/' {
        assert(name.contains('/'));
    }
    if name[0] == '\\' {
        assert(name.contains('\\'));
    }
}

/// The whole seconds since the Unix epoch, or 0 where the time is not known or
/// is before it.
pub open spec fn seconds_of(meta: FileMeta) -> u64 {
    match meta.modified {
        Some(moment) => if moment.seconds < 0 {
            0
        } else {
            moment.seconds as u64
        },
        None => 0,
    }
}

/// When a file was last modified, in seconds since the Unix epoch.
pub fn modified_secs(meta: &FileMeta) -> (seconds: u64)
    ensures
        seconds == seconds_of(*meta),
{
    match meta.modified {
        Some(moment) => if moment.seconds < 0 {
            0
        } else {
            moment.seconds as u64
        },
        None => 0,
    }
}

/// What is said of a root that cannot be resolved.
pub open spec fn cannot_resolve_text(root: Seq<char>, err: Seq<char>) -> Seq<char> {
    "cannot resolve "@ + root + ": "@ + err
}

/// What is said of a root that has become something else.
pub open spec fn moved_text(root: Seq<char>) -> Seq<char> {
    root + " no longer resolves to itself"@
}

/// Whether this is what checking a root gives, from what it resolves to: itself
/// where it still is the same path, and otherwise the reason it is refused.
pub open spec fn root_is_checked(
    project_root: Seq<char>,
    resolved: Result<String, String>,
    root: Result<String, String>,
) -> bool {
    match resolved {
        Err(err) => root matches Err(reason) && reason@ == cannot_resolve_text(project_root, err@),
        Ok(found) => exists|same: bool|
            #[trigger] may_be_same_path(found@, project_root, same) && confined_root(
                project_root,
                found@,
                same,
                root,
            ),
    }
}

/// A registered root, checked against what it resolves to right now.
///
/// `resolved` is what canonicalizing `project_root` gave. The registry holds
/// the path canonicalized at registration: a folder that has since been moved
/// away fails to resolve, and one replaced by a link to somewhere else no
/// longer resolves to itself. Every read goes through this.
pub fn canonical_root(project_root: &str, resolved: Result<String, String>) -> (root: Result<
    String,
    String,
>)
    ensures
        root_is_checked(project_root@, resolved, root),
{
    match resolved {
        Err(err) => {
            let mut reason = String::from_str("cannot resolve ");
            reason.append(project_root);
            reason.append(": ");
            reason.append(err.as_str());
            Err(reason)
        },
        Ok(found) => {
            let same = same_path(found.as_str(), project_root);
            confine(project_root, found, same)
        },
    }
}

/// What comes of a root that was resolved: itself where it is the same path,
/// and otherwise the reason it is refused.
pub open spec fn confined_root(
    project_root: Seq<char>,
    found: Seq<char>,
    same: bool,
    root: Result<String, String>,
) -> bool {
    match root {
        Ok(path) => same && path@ == found,
        Err(reason) => !same && reason@ == moved_text(project_root),
    }
}

/// A root that was resolved, given whether it is still the same path.
pub fn confine(project_root: &str, found: String, same: bool) -> (root: Result<String, String>)
    ensures
        confined_root(project_root@, found@, same, root),
{
    if same {
        return Ok(found);
    }
    let mut reason = String::from_str(project_root);
    reason.append(" no longer resolves to itself");
    Err(reason)
}

/// What is said of something that cannot be read.
pub open spec fn cannot_read_text(path: Seq<char>, err: Seq<char>) -> Seq<char> {
    "cannot read "@ + path + ": "@ + err
}

/// The reason something cannot be read.
pub fn cannot_read(path: &str, err: &str) -> (reason: String)
    ensures
        reason@ == cannot_read_text(path@, err@),
{
    let mut reason = String::from_str("cannot read ");
    reason.append(path);
    reason.append(": ");
    reason.append(err);
    reason
}

/// What is said of a file whose length cannot be read.
pub open spec fn cannot_stat_text(path: Seq<char>, err: Seq<char>) -> Seq<char> {
    "cannot stat "@ + path + ": "@ + err
}

/// The reason a file's length cannot be read.
pub fn cannot_stat(path: &str, err: &str) -> (reason: String)
    ensures
        reason@ == cannot_stat_text(path@, err@),
{
    let mut reason = String::from_str("cannot stat ");
    reason.append(path);
    reason.append(": ");
    reason.append(err);
    reason
}

/// Whether a directory entry is a log that can be read.
pub open spec fn is_log(listing: ListingModel) -> bool {
    &&& names_a_log(listing.name)
    &&& listing.meta matches Some(meta) && meta.is_file
}

/// The log a directory entry is.
pub open spec fn log_of(listing: ListingModel) -> LogFileModel {
    let meta = listing.meta.unwrap();
    LogFileModel { name: listing.name, bytes: meta.bytes, modified: seconds_of(meta) }
}

/// The logs among the entries of a directory. One unreadable entry does not
/// hide the rest.
pub open spec fn logs_of(seen: Seq<ListingModel>) -> Seq<LogFileModel>
    decreases seen.len(),
{
    if seen.len() == 0 {
        Seq::empty()
    } else if is_log(seen.last()) {
        logs_of(seen.drop_last()).push(log_of(seen.last()))
    } else {
        logs_of(seen.drop_last())
    }
}

/// Whether one file stands before another: the newer first, and of two of the
/// same second the one with the later name.
pub open spec fn stands_before(a: LogFileModel, b: LogFileModel) -> bool {
    a.modified > b.modified || (a.modified == b.modified && text_before(b.name, a.name))
}

/// How many files of a sorted list stand before a file or tie with it.
pub open spec fn place_of(sorted: Seq<LogFileModel>, file: LogFileModel) -> nat
    decreases sorted.len(),
{
    if sorted.len() == 0 {
        0
    } else if stands_before(file, sorted.last()) {
        place_of(sorted.drop_last(), file)
    } else {
        sorted.len()
    }
}

/// These files, newest first; files that tie keep their order.
pub open spec fn newest_first(files: Seq<LogFileModel>) -> Seq<LogFileModel>
    decreases files.len(),
{
    if files.len() == 0 {
        Seq::empty()
    } else {
        let rest = newest_first(files.drop_last());
        rest.insert(place_of(rest, files.last()) as int, files.last())
    }
}

/// Whether no file of a list stands before an earlier one.
pub open spec fn is_newest_first(files: Seq<LogFileModel>) -> bool {
    forall|i: int, j: int|
        0 <= i < j < files.len() ==> !stands_before(#[trigger] files[j], #[trigger] files[i])
}

/// Where a file is put, it stands before what follows and after what it does
/// not stand before.
proof fn lemma_place_of(sorted: Seq<LogFileModel>, file: LogFileModel)
    requires
        is_newest_first(sorted),
    ensures
        place_of(sorted, file) <= sorted.len(),
        forall|i: int|
            0 <= i < place_of(sorted, file) ==> !stands_before(file, #[trigger] sorted[i]),
        forall|i: int|
            place_of(sorted, file) <= i < sorted.len() ==> stands_before(
                file,
                #[trigger] sorted[i],
            ),
    decreases sorted.len(),
{
    if sorted.len() > 0 {
        let front = sorted.drop_last();
        let last = sorted.last();
        assert forall|i: int, j: int| 0 <= i < j < front.len() implies !stands_before(
            #[trigger] front[j],
            #[trigger] front[i],
        ) by {
            assert(front[j] == sorted[j] && front[i] == sorted[i]);
        }
        if stands_before(file, last) {
            lemma_place_of(front, file);
            assert forall|i: int| 0 <= i < place_of(sorted, file) implies !stands_before(
                file,
                #[trigger] sorted[i],
            ) by {
                assert(front[i] == sorted[i]);
            }
            assert forall|i: int| place_of(sorted, file) <= i < sorted.len() implies stands_before(
                file,
                #[trigger] sorted[i],
            ) by {
                if i < front.len() {
                    assert(front[i] == sorted[i]);
                }
            }
        } else {
            assert forall|i: int| 0 <= i < sorted.len() implies !stands_before(
                file,
                #[trigger] sorted[i],
            ) by {
                if i < front.len() {
                    assert(!stands_before(sorted[sorted.len() - 1], sorted[i]));
                    lemma_standing_is_an_order(file, sorted[i], last);
                }
            }
        }
    }
}

/// If one file stands before another, it stands before what does not stand
/// before that other.
proof fn lemma_standing_is_an_order(a: LogFileModel, b: LogFileModel, c: LogFileModel)
    ensures
        stands_before(a, b) && !stands_before(c, b) ==> stands_before(a, c),
        stands_before(a, b) ==> !stands_before(b, a),
{
    lemma_text_before_is_an_order(a.name, b.name, c.name);
    lemma_text_before_is_an_order(b.name, a.name, c.name);
    lemma_text_before_is_an_order(c.name, b.name, a.name);
    lemma_text_before_is_an_order(b.name, c.name, a.name);
}

/// Files put newest first are newest first, and are the same files.
pub proof fn sorting_puts_the_newest_first(files: Seq<LogFileModel>)
    ensures
        is_newest_first(newest_first(files)),
        newest_first(files).to_multiset() == files.to_multiset(),
        newest_first(files).len() == files.len(),
    decreases files.len(),
{
    broadcast use vstd::seq_lib::group_to_multiset_ensures;

    if files.len() > 0 {
        let rest = newest_first(files.drop_last());
        let file = files.last();
        sorting_puts_the_newest_first(files.drop_last());
        lemma_place_of(rest, file);
        let at = place_of(rest, file) as int;
        let sorted = rest.insert(at, file);
        assert forall|i: int, j: int| 0 <= i < j < sorted.len() implies !stands_before(
            #[trigger] sorted[j],
            #[trigger] sorted[i],
        ) by {
            let x = sorted[i];
            let y = sorted[j];
            if i < at {
                assert(x == rest[i]);
            } else if i > at {
                assert(x == rest[i - 1]);
            }
            if j < at {
                assert(y == rest[j]);
            } else if j > at {
                assert(y == rest[j - 1]);
            }
            if i == at {
                assert(stands_before(file, rest[j - 1]));
                lemma_standing_is_an_order(file, y, x);
            }
        }
        assert(files =~= files.drop_last().push(file));
        assert(sorted.to_multiset() == rest.to_multiset().insert(file));
    } else {
        assert(newest_first(files) =~= files);
    }
}

fn before(a: &LogFile, b: &LogFile) -> (before: bool)
    ensures
        before == stands_before(a@, b@),
{
    a.modified > b.modified || (a.modified == b.modified && comes_before(
        b.name.as_str(),
        a.name.as_str(),
    ))
}

/// Put one more file into a sorted list.
fn place(sorted: &mut Vec<LogFile>, file: LogFile)
    ensures
        file_views(final(sorted)@) == file_views(old(sorted)@).insert(
            place_of(file_views(old(sorted)@), file@) as int,
            file@,
        ),
{
    let ghost models = file_views(sorted@);
    let mut at: usize = sorted.len();
    assert(models.take(at as int) =~= models);
    while at > 0 && before(&file, &sorted[at - 1])
        invariant
            at <= sorted@.len(),
            models == file_views(sorted@),
            place_of(models, file@) == place_of(models.take(at as int), file@),
        decreases at,
    {
        assert(models.take(at as int).drop_last() =~= models.take(at - 1));
        at -= 1;
    }
    proof {
        if at > 0 {
            assert(models.take(at as int).last() == sorted@[at - 1]@);
        }
        assert(place_of(models, file@) == at);
    }
    let ghost added = file@;
    sorted.insert(at, file);
    assert(file_views(sorted@) =~= models.insert(at as int, added));
}

/// The logs among the entries of a directory that was read, newest first.
fn sorted_logs(seen: &Vec<Listing>) -> (files: Vec<LogFile>)
    ensures
        file_views(files@) == newest_first(logs_of(listing_views(seen@))),
{
    let ghost models = listing_views(seen@);
    let mut files: Vec<LogFile> = Vec::new();
    let mut i: usize = 0;
    assert(file_views(files@) =~= newest_first(logs_of(models.take(0))));
    while i < seen.len()
        invariant
            i <= seen@.len(),
            models == listing_views(seen@),
            file_views(files@) == newest_first(logs_of(models.take(i as int))),
        decreases seen@.len() - i,
    {
        let listing = &seen[i];
        let ghost next = models.take(i + 1);
        assert(next.drop_last() =~= models.take(i as int));
        assert(next.last() == listing@);
        if is_log_name(listing.name.as_str()) {
            if let Some(meta) = &listing.meta {
                if meta.is_file {
                    let file = LogFile {
                        name: listing.name.clone(),
                        bytes: meta.bytes,
                        modified: modified_secs(meta),
                    };
                    assert(file@ == log_of(listing@));
                    assert(logs_of(next).drop_last() =~= logs_of(models.take(i as int)));
                    place(&mut files, file);
                }
            }
        }
        i += 1;
    }
    assert(models.take(i as int) =~= models);
    files
}

/// Whether this is what listing a project's logs gives: the reason the root is
/// refused, or the reason its directory cannot be read, or the logs in it.
pub open spec fn lists(
    root: Result<String, String>,
    seen: Result<Vec<Listing>, String>,
    files: Result<Vec<LogFile>, String>,
) -> bool {
    match root {
        Err(refused) => files matches Err(reason) && reason@ == refused@,
        Ok(root) => match seen {
            Err(err) => files matches Err(reason) && exists|dir: Seq<char>|
                #[trigger] is_logs_dir(root@, dir) && reason@ == cannot_read_text(dir, err@),
            Ok(seen) => files matches Ok(files) && file_views(files@) == newest_first(
                logs_of(listing_views(seen@)),
            ),
        },
    }
}

/// Every log file in a project's `storage/logs/`, newest first.
///
/// `root` is what [`canonical_root`] gave, and `seen` what reading its logs
/// directory gave.
pub fn list_files(root: Result<String, String>, seen: Result<Vec<Listing>, String>) -> (files: Result<
    Vec<LogFile>,
    String,
>)
    ensures
        lists(root, seen, files),
        files matches Ok(files) ==> is_newest_first(file_views(files@)),
{
    match root {
        Err(reason) => Err(reason),
        Ok(root) => {
            match seen {
                Err(err) => {
                    let dir = logs_dir(root.as_str());
                    Err(cannot_read(dir.as_str(), err.as_str()))
                },
                Ok(seen) => {
                    let files = sorted_logs(&seen);
                    proof {
                        sorting_puts_the_newest_first(logs_of(listing_views(seen@)));
                    }
                    Ok(files)
                },
            }
        },
    }
}

/// When a directory entry was last modified; the Unix epoch where that is not
/// known.
pub open spec fn moment_of(meta: FileMeta) -> Moment {
    match meta.modified {
        Some(moment) => moment,
        None => Moment { seconds: 0, nanos: 0 },
    }
}

/// Whether one moment is after another.
pub open spec fn is_after(a: Moment, b: Moment) -> bool {
    a.seconds > b.seconds || (a.seconds == b.seconds && a.nanos > b.nanos)
}

/// Whether one log is newer than another. The name breaks a tie, so that two
/// files written in the same tick resolve to the later date.
pub open spec fn is_newer(a: ListingModel, b: ListingModel) -> bool {
    let x = moment_of(a.meta.unwrap());
    let y = moment_of(b.meta.unwrap());
    is_after(x, y) || (x == y && text_before(b.name, a.name))
}

/// Whether the log at `at` is the newest of a directory: no other is newer, and
/// it comes before those that tie with it.
pub open spec fn is_newest(seen: Seq<ListingModel>, at: int) -> bool {
    &&& 0 <= at < seen.len()
    &&& is_log(seen[at])
    &&& forall|i: int|
        0 <= i < seen.len() && is_log(#[trigger] seen[i]) ==> !is_newer(seen[i], seen[at])
    &&& forall|i: int| 0 <= i < at && is_log(#[trigger] seen[i]) ==> is_newer(seen[at], seen[i])
}

/// Newer than is transitive, also through a tie.
proof fn lemma_newer_is_an_order(a: ListingModel, b: ListingModel, c: ListingModel)
    ensures
        is_newer(a, b) ==> !is_newer(b, a),
        is_newer(a, b) && !is_newer(c, b) ==> is_newer(a, c),
        is_newer(a, b) && is_newer(b, c) ==> is_newer(a, c),
{
    lemma_text_before_is_an_order(a.name, b.name, c.name);
    lemma_text_before_is_an_order(b.name, a.name, c.name);
    lemma_text_before_is_an_order(c.name, b.name, a.name);
    lemma_text_before_is_an_order(b.name, c.name, a.name);
}

fn newer(a: &Listing, b: &Listing) -> (newer: bool)
    requires
        a.meta is Some,
        b.meta is Some,
    ensures
        newer == is_newer(a@, b@),
{
    let epoch = Moment { seconds: 0, nanos: 0 };
    let x = match &a.meta {
        Some(meta) => match meta.modified {
            Some(moment) => moment,
            None => epoch,
        },
        None => epoch,
    };
    let y = match &b.meta {
        Some(meta) => match meta.modified {
            Some(moment) => moment,
            None => epoch,
        },
        None => epoch,
    };
    if x.seconds != y.seconds {
        x.seconds > y.seconds
    } else if x.nanos != y.nanos {
        x.nanos > y.nanos
    } else {
        comes_before(b.name.as_str(), a.name.as_str())
    }
}

/// Where the newest log among the entries of a directory is.
fn newest_at(seen: &Vec<Listing>) -> (best: Option<usize>)
    ensures
        best matches Some(at) ==> is_newest(listing_views(seen@), at as int),
        best is None ==> forall|i: int|
            0 <= i < seen@.len() ==> !is_log(#[trigger] listing_views(seen@)[i]),
{
    let ghost models = listing_views(seen@);
    let mut best: Option<usize> = None;
    let mut i: usize = 0;
    assert(models.take(0).len() == 0);
    while i < seen.len()
        invariant
            i <= seen@.len(),
            models == listing_views(seen@),
            best matches Some(at) ==> is_newest(models.take(i as int), at as int),
            best is None ==> forall|j: int| 0 <= j < i ==> !is_log(#[trigger] models[j]),
        decreases seen@.len() - i,
    {
        let listing = &seen[i];
        let ghost next = models.take(i + 1);
        let ghost front = models.take(i as int);
        assert(forall|j: int| 0 <= j < i ==> next[j] == #[trigger] front[j]);
        assert(next[i as int] == listing@);
        let readable = match &listing.meta {
            Some(meta) => meta.is_file,
            None => false,
        };
        if is_log_name(listing.name.as_str()) && readable {
            match best {
                Some(at) => {
                    assert(front[at as int] == seen@[at as int]@);
                    if newer(listing, &seen[at]) {
                        proof {
                            assert forall|j: int| 0 <= j < next.len() && is_log(
                                #[trigger] next[j],
                            ) implies !is_newer(next[j], listing@) by {
                                if j < i {
                                    assert(next[j] == front[j]);
                                    lemma_newer_is_an_order(listing@, front[at as int], front[j]);
                                    lemma_newer_is_an_order(listing@, front[j], front[j]);
                                } else {
                                    lemma_newer_is_an_order(listing@, listing@, listing@);
                                }
                            }
                            assert forall|j: int| 0 <= j < i && is_log(
                                #[trigger] next[j],
                            ) implies is_newer(listing@, next[j]) by {
                                assert(next[j] == front[j]);
                                lemma_newer_is_an_order(listing@, front[at as int], front[j]);
                            }
                            assert(is_newest(next, i as int));
                        }
                        best = Some(i);
                    } else {
                        assert(is_newest(next, at as int)) by {
                            assert(next[at as int] == front[at as int]);
                            assert forall|j: int| 0 <= j < at && is_log(
                                #[trigger] next[j],
                            ) implies is_newer(next[at as int], next[j]) by {
                                assert(next[j] == front[j]);
                            }
                        }
                    }
                },
                None => {
                    proof {
                        assert forall|j: int| 0 <= j < i implies !is_log(#[trigger] next[j]) by {
                            assert(next[j] == models[j]);
                        }
                        lemma_newer_is_an_order(listing@, listing@, listing@);
                        assert(is_newest(next, i as int));
                    }
                    best = Some(i);
                },
            }
        } else {
            proof {
                assert(!is_log(models[i as int]));
                if let Some(at) = best {
                    assert(next[at as int] == front[at as int]);
                    assert forall|j: int| 0 <= j < at && is_log(#[trigger] next[j]) implies is_newer(
                        next[at as int],
                        next[j],
                    ) by {
                        assert(next[j] == front[j]);
                    }
                    assert(is_newest(next, at as int));
                }
            }
        }
        i += 1;
    }
    assert(models.take(i as int) =~= models);
    best
}

/// A file that was found: its name, and the path it is read at.
#[derive(Debug, PartialEq, Eq)]
pub struct Located {
    pub name: String,
    pub path: String,
}

/// Whether this is the newest log of a directory, if there is one.
pub open spec fn finds_newest(
    dir: Seq<char>,
    seen: Seq<ListingModel>,
    found: Option<Located>,
) -> bool {
    match found {
        Some(located) => {
            &&& exists|at: int| #[trigger] is_newest(seen, at) && seen[at].name == located.name@
            &&& is_below(dir, located.name@, located.path@)
        },
        None => forall|i: int| 0 <= i < seen.len() ==> !is_log(#[trigger] seen[i]),
    }
}

/// The newest file by modification time.
///
/// `seen` is what reading `dir` gave. A readable directory with nothing in it
/// yet is not an error: a fresh project that has not logged.
pub fn newest_log(dir: &str, seen: Result<Vec<Listing>, String>) -> (found: Result<
    Option<Located>,
    String,
>)
    ensures
        seen matches Err(err) ==> (found matches Err(reason) && reason@ == cannot_read_text(
            dir@,
            err@,
        )),
        seen matches Ok(seen) ==> (found matches Ok(found) && finds_newest(
            dir@,
            listing_views(seen@),
            found,
        )),
{
    match seen {
        Err(err) => Err(cannot_read(dir, err.as_str())),
        Ok(seen) => match newest_at(&seen) {
            Some(at) => {
                let name = seen[at].name.clone();
                let path = path_join(dir, name.as_str());
                assert(listing_views(seen@)[at as int].name == name@);
                Ok(Some(Located { name, path }))
            },
            None => Ok(None),
        },
    }
}

/// Whether a directory entry is a file that is named as a log, is not hidden and
/// could be looked at.
pub open spec fn is_readable_log(listing: ListingModel) -> bool {
    let name = listing.name;
    let n = name.len() as int;
    &&& n > 4
    &&& name[0] != '.'
    &&& name[n - 4] == '.' && name[n - 3] == 'l' && name[n - 2] == 'o' && name[n - 1] == 'g'
    &&& listing.meta matches Some(meta) && meta.is_file
}

/// The seconds at which a directory entry was modified, 0 where that is not
/// known.
pub open spec fn seconds_at(listing: ListingModel) -> int {
    match listing.meta {
        Some(FileMeta { modified: Some(moment), .. }) => moment.seconds as int,
        _ => 0,
    }
}

/// The nanoseconds after them.
pub open spec fn nanos_at(listing: ListingModel) -> int {
    match listing.meta {
        Some(FileMeta { modified: Some(moment), .. }) => moment.nanos as int,
        _ => 0,
    }
}

/// A name is that of a log exactly where it ends in `.log` and begins with
/// something else than a dot.
pub proof fn a_log_is_named_by_its_end(name: Seq<char>)
    ensures
        names_a_log(name) <==> ({
            let n = name.len() as int;
            &&& n > 4
            &&& name[0] != '.'
            &&& name[n - 4] == '.'
            &&& name[n - 3] == 'l'
            &&& name[n - 2] == 'o'
            &&& name[n - 1] == 'g'
        }),
{
    reveal_strlit(".log");
    let n = name.len() as int;
    if n >= 4 {
        let end = name.subrange(n - 4, n);
        assert(end[0] == name[n - 4]);
        assert(end[1] == name[n - 3]);
        assert(end[2] == name[n - 2]);
        assert(end[3] == name[n - 1]);
        if name[n - 4] == '.' && name[n - 3] == 'l' && name[n - 2] == 'o' && name[n - 1] == 'g' {
            assert(end =~= ".log"@);
        }
    }
}

/// A name stays inside its directory exactly where it holds no separator, no
/// zero and no two dots in a row.
pub proof fn a_name_is_confined_by_its_characters(name: Seq<char>)
    ensures
        is_confined(name) <==> (forall|i: int|
            0 <= i < name.len() ==> #[trigger] name[i] != '/' && name[i] != '\\' && name[i] != '\0'
                && !(name[i] == '.' && i + 1 < name.len() && name[i + 1] == '.')),
{
    reveal_strlit("..");
    let dots = ".."@;
    assert(dots.len() == 2);
    if is_confined(name) {
        assert forall|i: int| 0 <= i < name.len() implies #[trigger] name[i] != '/' && name[i]
            != '\\' && name[i] != '\0' && !(name[i] == '.' && i + 1 < name.len() && name[i + 1]
            == '.') by {
            assert(name.contains(name[i]));
            if name[i] == '.' && i + 1 < name.len() && name[i + 1] == '.' {
                assert(name.subrange(i, i + 2) =~= dots);
                assert(occurs_at(name, dots, i));
            }
        }
    }
    if forall|i: int|
        0 <= i < name.len() ==> #[trigger] name[i] != '/' && name[i] != '\\' && name[i] != '\0'
            && !(name[i] == '.' && i + 1 < name.len() && name[i + 1] == '.') {
        if contains_text(name, dots) {
            let at = choose|at: int| occurs_at(name, dots, at);
            assert(name.subrange(at, at + 2)[0] == name[at]);
            assert(name.subrange(at, at + 2)[1] == name[at + 1]);
        }
    }
}

/// A plain log name without a colon is accepted in every directory that is
/// spelled plainly: nothing else is refused.
pub proof fn a_plain_log_name_is_accepted(
    dir: Seq<char>,
    name: Seq<char>,
    path: Result<String, String>,
)
    requires
        names_a_log(name),
        is_plain_name(name),
        forall|i: int|
            0 <= i < name.len() ==> #[trigger] name[i] != ':' && name[i] != '\0' && !(name[i] == '.'
                && i + 1 < name.len() && name[i + 1] == '.'),
        !(dir.len() > 1 && dir[0] == '\\' && dir[1] == '\\'),
        resolves_name(dir, name, path),
    ensures
        path is Ok,
{
    assert forall|i: int| 0 <= i < name.len() implies #[trigger] name[i] != '/' && name[i] != '\\'
        && name[i] != '\0' && !(name[i] == '.' && i + 1 < name.len() && name[i + 1] == '.') by {
        assert(name.contains(name[i]));
    }
    a_name_is_confined_by_its_characters(name);
    a_log_is_named_by_its_end(name);
    assert(name.contains(name[0]));
}

/// The log that is found as the newest is a log of the directory, and no log in
/// it was modified later, by its seconds and then its nanoseconds. Only between
/// logs of the same moment does the name decide, and then for the last one. None
/// is found only where there is none.
pub proof fn the_newest_log_was_modified_last(
    dir: Seq<char>,
    seen: Seq<ListingModel>,
    found: Option<Located>,
)
    requires
        finds_newest(dir, seen, found),
    ensures
        found is None <==> forall|i: int|
            0 <= i < seen.len() ==> !is_readable_log(#[trigger] seen[i]),
        found matches Some(located) ==> exists|at: int|
            {
                &&& 0 <= at < seen.len()
                &&& is_readable_log(#[trigger] seen[at])
                &&& seen[at].name == located.name@
                &&& forall|i: int|
                    0 <= i < seen.len() && is_readable_log(#[trigger] seen[i]) ==> {
                        ||| seconds_at(seen[i]) < seconds_at(seen[at])
                        ||| seconds_at(seen[i]) == seconds_at(seen[at]) && nanos_at(seen[i])
                            < nanos_at(seen[at])
                        ||| seconds_at(seen[i]) == seconds_at(seen[at]) && nanos_at(seen[i])
                            == nanos_at(seen[at]) && !text_before(seen[at].name, seen[i].name)
                    }
            },
{
    assert forall|i: int| 0 <= i < seen.len() implies is_readable_log(#[trigger] seen[i]) == is_log(
        seen[i],
    ) by {
        a_log_is_named_by_its_end(seen[i].name);
    }
    if let Some(located) = found {
        let at = choose|at: int| #[trigger] is_newest(seen, at) && seen[at].name == located.name@;
        assert(is_readable_log(seen[at]));
        assert forall|i: int| 0 <= i < seen.len() && is_readable_log(#[trigger] seen[i]) implies {
            ||| seconds_at(seen[i]) < seconds_at(seen[at])
            ||| seconds_at(seen[i]) == seconds_at(seen[at]) && nanos_at(seen[i]) < nanos_at(
                seen[at],
            )
            ||| seconds_at(seen[i]) == seconds_at(seen[at]) && nanos_at(seen[i]) == nanos_at(
                seen[at],
            ) && !text_before(seen[at].name, seen[i].name)
        } by {
            assert(!is_newer(seen[i], seen[at]));
        }
    }
}

/// Every log of a directory is listed once, with its name, its size and the whole
/// seconds of its modification, and nothing else is; a later one comes first,
/// and of two of the same second the one with the later name.
pub proof fn a_listing_holds_every_log_once(seen: Seq<ListingModel>)
    ensures
        ({
            let files = newest_first(logs_of(seen));
            let logs = seen.filter(|listing: ListingModel| is_readable_log(listing)).map_values(
                |listing: ListingModel|
                    LogFileModel {
                        name: listing.name,
                        bytes: listing.meta.unwrap().bytes,
                        modified: if seconds_at(listing) < 0 {
                            0
                        } else {
                            seconds_at(listing) as u64
                        },
                    },
            );
            &&& files.to_multiset() == logs.to_multiset()
            &&& files.len() == logs.len()
            &&& forall|i: int, j: int|
                0 <= i < j < files.len() ==> {
                    ||| (#[trigger] files[i]).modified > (#[trigger] files[j]).modified
                    ||| files[i].modified == files[j].modified && !text_before(
                        files[i].name,
                        files[j].name,
                    )
                }
        }),
{
    sorting_puts_the_newest_first(logs_of(seen));
    lemma_logs_are_filtered(seen);
    let files = newest_first(logs_of(seen));
    assert forall|i: int, j: int| 0 <= i < j < files.len() implies {
        ||| (#[trigger] files[i]).modified > (#[trigger] files[j]).modified
        ||| files[i].modified == files[j].modified && !text_before(files[i].name, files[j].name)
    } by {
        assert(!stands_before(files[j], files[i]));
    }
}

proof fn lemma_logs_are_filtered(seen: Seq<ListingModel>)
    ensures
        logs_of(seen) == seen.filter(|listing: ListingModel| is_readable_log(listing)).map_values(
            |listing: ListingModel|
                LogFileModel {
                    name: listing.name,
                    bytes: listing.meta.unwrap().bytes,
                    modified: if seconds_at(listing) < 0 {
                        0
                    } else {
                        seconds_at(listing) as u64
                    },
                },
        ),
    decreases seen.len(),
{
    reveal(Seq::filter);
    let readable = |listing: ListingModel| is_readable_log(listing);
    let file = |listing: ListingModel|
        LogFileModel {
            name: listing.name,
            bytes: listing.meta.unwrap().bytes,
            modified: if seconds_at(listing) < 0 {
                0
            } else {
                seconds_at(listing) as u64
            },
        };
    if seen.len() == 0 {
        assert(logs_of(seen) =~= seen.filter(readable).map_values(file));
    } else {
        let front = seen.drop_last();
        lemma_logs_are_filtered(front);
        a_log_is_named_by_its_end(seen.last().name);
        if is_readable_log(seen.last()) {
            assert(log_of(seen.last()) == file(seen.last()));
            assert(front.filter(readable).push(seen.last()).map_values(file) =~= front.filter(
                readable,
            ).map_values(file).push(file(seen.last())));
        }
    }
}

/// Of roots at absolute paths through plain names, one that resolves to itself is
/// accepted and one that resolves to anything else is refused, also to something
/// inside it or beside it.
pub proof fn a_root_that_moved_is_refused(
    names: Seq<Seq<char>>,
    others: Seq<Seq<char>>,
    resolved: String,
    root: Result<String, String>,
)
    requires
        all_plain(names),
        all_plain(others),
        resolved@ == rooted(others),
        root_is_checked(rooted(names), Ok(resolved), root),
    ensures
        root is Ok <==> rooted(others) == rooted(names),
        root matches Ok(path) ==> path@ == rooted(names),
        root matches Err(reason) ==> reason@ == rooted(names) + " no longer resolves to itself"@,
{
}

} // verus!
