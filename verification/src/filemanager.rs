//! The store's directory: which log and table files it holds, and the names
//! of the files to come.
//!
//! Files are named `log_<N>` and `table_<N>` with a decimal `N`. Logs and
//! tables are numbered apart. The manager does not touch the file system: it
//! is told what the directory holds, and it names files for others to make.

use crate::decimal::{decimal, parse_decimal, parse_version, to_decimal};
use crate::error::{Error, ErrorKind};
use crate::pattern::{capture, captured};
use vstd::prelude::*;
use vstd::string::*;

verus! {

/// One entry of a directory listing.
pub struct DirEntry {
    /// The entry's path: the directory's path and the entry's name.
    pub path: String,
    /// Whether the entry is itself a directory.
    pub is_dir: bool,
}

/// What was found at the path that the store is to live at.
pub enum Found {
    /// Nothing is there.
    Nothing,
    /// Something is there that is no directory.
    File,
    /// A directory, with these entries.
    Directory(Vec<DirEntry>),
}

/// The regular expression for the path of a log file: the whole path is
/// `log_` and digits, behind a `/` where anything stands before them.
pub open spec fn log_pattern() -> Seq<char> {
    "(?s)^(?:.*/)?log_([0-9]+)$"@
}

/// The regular expression for the path of a table file: the whole path is
/// `table_` and digits, behind a `/` where anything stands before them.
pub open spec fn table_pattern() -> Seq<char> {
    "(?s)^(?:.*/)?table_([0-9]+)$"@
}

/// What every log file's name starts with.
pub open spec fn log_prefix() -> Seq<char> {
    "log_"@
}

/// What every table file's name starts with.
pub open spec fn table_prefix() -> Seq<char> {
    "table_"@
}

/// The last component of a path: what stands behind its last `/`, or the
/// whole path where it has none.
pub open spec fn last_component(path: Seq<char>) -> Seq<char>
    decreases path.len(),
{
    if path.len() == 0 || path.last() == '/' {
        Seq::empty()
    } else {
        last_component(path.drop_last()).push(path.last())
    }
}

/// The number of the file that `path` names: its last component is
/// `prefix`, then one or more digits, and nothing else; the number is what
/// the digits denote.
pub open spec fn named_number(prefix: Seq<char>, path: Seq<char>) -> Option<usize> {
    let name = last_component(path);
    if prefix.len() <= name.len() && name.subrange(0, prefix.len() as int) == prefix {
        parse_decimal(name.subrange(prefix.len() as int, name.len() as int))
    } else {
        None
    }
}

/// The file number that is read from `path`: the digits that the first
/// group of `pattern` captures, where the last component of `path` is
/// `prefix` and those digits and nothing else.
pub open spec fn version_in(pattern: Seq<char>, prefix: Seq<char>, path: Seq<char>) -> Option<
    usize,
> {
    match captured(pattern, path, 1) {
        Some(digits) if last_component(path) == prefix + digits => parse_decimal(digits),
        _ => None,
    }
}

/// The entries that are no directories and from whose paths a number is
/// read, in the order of the listing, each with its number.
pub open spec fn numbered_files(
    entries: Seq<DirEntry>,
    pattern: Seq<char>,
    prefix: Seq<char>,
) -> Seq<(usize, Seq<char>)>
    decreases entries.len(),
{
    if entries.len() == 0 {
        Seq::empty()
    } else {
        let before = numbered_files(entries.drop_last(), pattern, prefix);
        let entry = entries.last();
        match version_in(pattern, prefix, entry.path@) {
            Some(number) if !entry.is_dir => before.push((number, entry.path@)),
            _ => before,
        }
    }
}

/// The log files among the entries of a directory.
pub open spec fn log_files(entries: Seq<DirEntry>) -> Seq<(usize, Seq<char>)> {
    numbered_files(entries, log_pattern(), log_prefix())
}

/// The table files among the entries of a directory.
pub open spec fn table_files(entries: Seq<DirEntry>) -> Seq<(usize, Seq<char>)> {
    numbered_files(entries, table_pattern(), table_prefix())
}

/// A number is read from a path only where the path's last component is
/// the prefix and the digits of that number.
pub proof fn lemma_version_is_named(pattern: Seq<char>, prefix: Seq<char>, path: Seq<char>)
    ensures
        version_in(pattern, prefix, path) is Some ==> version_in(pattern, prefix, path)
            == named_number(prefix, path),
{
    if version_in(pattern, prefix, path) is Some {
        let digits = captured(pattern, path, 1)->Some_0;
        let name = last_component(path);
        assert(name.subrange(0, prefix.len() as int) =~= prefix);
        assert(name.subrange(prefix.len() as int, name.len() as int) =~= digits);
    }
}

/// Every file that is taken up from a listing is an entry of the listing
/// that is no directory, and its last component is the prefix and the
/// digits of its number.
pub proof fn lemma_numbered_files_are_named(
    entries: Seq<DirEntry>,
    pattern: Seq<char>,
    prefix: Seq<char>,
)
    ensures
        forall|i: int|
            0 <= i < numbered_files(entries, pattern, prefix).len() ==> {
                let file = #[trigger] numbered_files(entries, pattern, prefix)[i];
                &&& named_number(prefix, file.1) == Some(file.0)
                &&& exists|j: int|
                    0 <= j < entries.len() && !entries[j].is_dir && (#[trigger] entries[j]).path@
                        == file.1
            },
    decreases entries.len(),
{
    if entries.len() > 0 {
        let shorter = entries.drop_last();
        let before = numbered_files(shorter, pattern, prefix);
        let files = numbered_files(entries, pattern, prefix);
        let entry = entries.last();
        lemma_numbered_files_are_named(shorter, pattern, prefix);
        lemma_version_is_named(pattern, prefix, entry.path@);
        assert forall|i: int| 0 <= i < files.len() implies {
            let file = #[trigger] files[i];
            &&& named_number(prefix, file.1) == Some(file.0)
            &&& exists|j: int|
                0 <= j < entries.len() && !entries[j].is_dir && (#[trigger] entries[j]).path@
                    == file.1
        } by {
            if i < before.len() {
                assert(files[i] == before[i]);
                let j = choose|j: int|
                    0 <= j < shorter.len() && !shorter[j].is_dir && (#[trigger] shorter[j]).path@
                        == before[i].1;
                assert(entries[j] == shorter[j]);
            } else {
                assert(entries[entries.len() - 1] == entry);
            }
        }
    }
}

/// Where no `/` stands from `start` on, and one stands just before
/// `start` or `start` is the beginning, the last component starts at `start`.
proof fn lemma_last_component_from(path: Seq<char>, start: int)
    requires
        0 <= start <= path.len(),
        forall|i: int| start <= i < path.len() ==> path[i] != '/',
        start == 0 || path[start - 1] == '/',
    ensures
        last_component(path) == path.subrange(start, path.len() as int),
    decreases path.len(),
{
    if start < path.len() {
        let shorter = path.drop_last();
        lemma_last_component_from(shorter, start);
        assert(shorter.subrange(start, shorter.len() as int).push(path.last())
            =~= path.subrange(start, path.len() as int));
    } else {
        assert(path.subrange(start, path.len() as int) =~= Seq::<char>::empty());
    }
}

/// The file with the greatest number; of several with that number, the
/// first.
pub open spec fn newest(files: Seq<(usize, Seq<char>)>) -> Option<(usize, Seq<char>)>
    decreases files.len(),
{
    if files.len() == 0 {
        None
    } else {
        match newest(files.drop_last()) {
            Some(best) if best.0 >= files.last().0 => Some(best),
            _ => Some(files.last()),
        }
    }
}

/// The number for the next file: one more than the greatest in use, or zero.
pub open spec fn next_number(files: Seq<(usize, Seq<char>)>) -> int {
    match newest(files) {
        Some(best) => best.0 + 1,
        None => 0,
    }
}

/// `name` within the directory `root`.
pub open spec fn join(root: Seq<char>, name: Seq<char>) -> Seq<char> {
    if root.len() == 0 || root.last() == '/' {
        root + name
    } else {
        root + seq!['/'] + name
    }
}

/// The path of log file `number` in `root`.
pub open spec fn log_path(root: Seq<char>, number: usize) -> Seq<char> {
    join(root, log_prefix() + decimal(number as nat))
}

/// The path of table file `number` in `root`.
pub open spec fn table_path(root: Seq<char>, number: usize) -> Seq<char> {
    join(root, table_prefix() + decimal(number as nat))
}

/// Whether `a` comes before `b` when the tables are taken newest first: the
/// greater number first, and of two with one number the one listed later.
pub open spec fn newer(numbers: Seq<usize>, a: int, b: int) -> bool {
    numbers[a] > numbers[b] || (numbers[a] == numbers[b] && a > b)
}

/// Whether `order` lists every index of `numbers` once, newest first.
pub open spec fn is_newest_first(numbers: Seq<usize>, order: Seq<usize>) -> bool {
    &&& order.len() == numbers.len()
    &&& forall|p: int| 0 <= p < order.len() ==> (#[trigger] order[p]) < numbers.len()
    &&& forall|p: int, q: int|
        0 <= p < q < order.len() ==> newer(numbers, order[p] as int, order[q] as int)
    &&& forall|i: usize| i < numbers.len() ==> order.contains(i)
}

/// Whether the file at place `at` has a number that is no less than any
/// other, and greater than the number of every file before it.
pub open spec fn is_first_greatest(files: Seq<(usize, Seq<char>)>, at: int) -> bool {
    &&& 0 <= at < files.len()
    &&& forall|i: int| 0 <= i < files.len() ==> (#[trigger] files[i]).0 <= files[at].0
    &&& forall|i: int| 0 <= i < at ==> (#[trigger] files[i]).0 < files[at].0
}

/// The newest file is the first of those with the greatest number; there is
/// none only where there is no file.
pub proof fn lemma_newest_is_greatest(files: Seq<(usize, Seq<char>)>)
    ensures
        files.len() == 0 <==> newest(files) is None,
        newest(files) matches Some(best) ==> files.contains(best) && (forall|i: int|
            0 <= i < files.len() ==> (#[trigger] files[i]).0 <= best.0) && exists|at: int|
            is_first_greatest(files, at) && files[at] == best,
    decreases files.len(),
{
    if files.len() > 0 {
        let shorter = files.drop_last();
        lemma_newest_is_greatest(shorter);
        let best = newest(files)->Some_0;
        assert forall|i: int| 0 <= i < shorter.len() implies shorter[i] == files[i] by {}
        if newest(shorter) is Some && newest(shorter)->Some_0.0 >= files.last().0 {
            let at = choose|at: int| is_first_greatest(shorter, at) && shorter[at] == best;
            assert(files[at] == best);
            assert(is_first_greatest(files, at)) by {
                assert forall|i: int| 0 <= i < files.len() implies (#[trigger] files[i]).0
                    <= files[at].0 by {
                    if i < shorter.len() {
                        assert(shorter[i].0 <= shorter[at].0);
                    }
                }
                assert forall|i: int| 0 <= i < at implies (#[trigger] files[i]).0
                    < files[at].0 by {
                    assert(shorter[i].0 < shorter[at].0);
                }
            }
        } else {
            let at = files.len() - 1;
            assert(files[at] == best);
            assert(is_first_greatest(files, at)) by {
                assert forall|i: int| 0 <= i < at implies (#[trigger] files[i]).0
                    < files[at].0 by {
                    if newest(shorter) is Some {
                        assert(shorter[i].0 <= newest(shorter)->Some_0.0);
                    }
                }
            }
        }
    }
}

/// Two orders of the same tables, both newest first, agree on their first
/// `upto` places.
proof fn lemma_orders_agree(numbers: Seq<usize>, a: Seq<usize>, b: Seq<usize>, upto: int)
    requires
        is_newest_first(numbers, a),
        is_newest_first(numbers, b),
        0 <= upto <= numbers.len(),
    ensures
        forall|j: int| 0 <= j < upto ==> a[j] == b[j],
    decreases upto,
{
    if upto > 0 {
        lemma_orders_agree(numbers, a, b, upto - 1);
        let at = upto - 1;
        assert(a[at] < numbers.len());
        assert(b[at] < numbers.len());
        assert(b.contains(a[at]));
        assert(a.contains(b[at]));
        let q = choose|q: int| 0 <= q < b.len() && b[q] == a[at];
        let p = choose|p: int| 0 <= p < a.len() && a[p] == b[at];
        if q < at {
            assert(newer(numbers, a[q] as int, a[at] as int));
        }
        if p < at {
            assert(newer(numbers, b[p] as int, b[at] as int));
        }
        if q > at {
            assert(newer(numbers, b[at] as int, b[q] as int));
        }
        if p > at {
            assert(newer(numbers, a[at] as int, a[p] as int));
        }
    }
}

/// There is one order only that lists the tables newest first.
pub proof fn lemma_newest_first_is_unique(numbers: Seq<usize>, a: Seq<usize>, b: Seq<usize>)
    requires
        is_newest_first(numbers, a),
        is_newest_first(numbers, b),
    ensures
        a == b,
{
    lemma_orders_agree(numbers, a, b, numbers.len() as int);
    assert(a =~= b);
}

/// The path that `join` makes of a directory and a name without `/` has
/// that name as its last component.
pub proof fn lemma_last_component_of_join(root: Seq<char>, name: Seq<char>)
    requires
        forall|i: int| 0 <= i < name.len() ==> name[i] != '/',
    ensures
        last_component(join(root, name)) == name,
{
    let path = join(root, name);
    let start = path.len() - name.len();
    assert forall|i: int| start <= i < path.len() implies path[i] != '/' by {
        assert(path[i] == name[i - start]);
    }
    lemma_last_component_from(path, start);
    assert(path.subrange(start, path.len() as int) =~= name);
}

/// The paths that the manager makes for its files are read back as the
/// numbers they were made from.
pub proof fn lemma_paths_are_named(root: Seq<char>, number: usize)
    ensures
        named_number(log_prefix(), log_path(root, number)) == Some(number),
        named_number(table_prefix(), table_path(root, number)) == Some(number),
{
    reveal_strlit("log_");
    reveal_strlit("table_");
    let digits = decimal(number as nat);
    crate::decimal::lemma_parse_decimal_of_decimal(number);
    crate::decimal::lemma_decimal_round_trip(number as nat);
    assert forall|i: int| 0 <= i < digits.len() implies digits[i] != '/' by {
        assert(crate::decimal::is_digit(digits[i]));
    }
    let log_name = log_prefix() + digits;
    lemma_last_component_of_join(root, log_name);
    assert(log_name.subrange(0, log_prefix().len() as int) =~= log_prefix());
    assert(log_name.subrange(log_prefix().len() as int, log_name.len() as int) =~= digits);
    let table_name = table_prefix() + digits;
    lemma_last_component_of_join(root, table_name);
    assert(table_name.subrange(0, table_prefix().len() as int) =~= table_prefix());
    assert(table_name.subrange(table_prefix().len() as int, table_name.len() as int)
        =~= digits);
}

/// The last component of `path`.
fn file_name(path: &str) -> (name: String)
    ensures
        name@ == last_component(path@),
{
    let len = path.unicode_len();
    let mut start: usize = len;
    while start > 0 && path.get_char(start - 1) != '/'
        invariant
            len == path@.len(),
            start <= len,
            forall|i: int| start <= i < len ==> path@[i] != '/',
        decreases start,
    {
        start = start - 1;
    }
    proof {
        lemma_last_component_from(path@, start as int);
    }
    String::from_str(path.substring_char(start, len))
}

/// The number that is read from `filename`: the digits that the first
/// group of `pattern` captures, where the last component of `filename` is
/// `prefix` and those digits and nothing else.
fn file_version(pattern: &str, prefix: &str, filename: &str) -> (r: Option<usize>)
    ensures
        r == version_in(pattern@, prefix@, filename@),
        r is Some ==> r == named_number(prefix@, filename@),
{
    proof {
        lemma_version_is_named(pattern@, prefix@, filename@);
    }
    match capture(pattern, filename, 1) {
        Some(digits) => {
            let mut expected = String::from_str(prefix);
            expected.append(digits.as_str());
            if file_name(filename) == expected {
                parse_version(digits.as_str())
            } else {
                None
            }
        },
        None => None,
    }
}

/// The number of the log file at `filename`. It is a number only where the
/// last component of `filename` is `log_`, then one or more digits, and
/// nothing else, and then the number is what the digits denote.
pub fn log_file_version(filename: &str) -> (r: Option<usize>)
    ensures
        r == version_in(log_pattern(), log_prefix(), filename@),
        r is Some ==> r == named_number(log_prefix(), filename@),
{
    file_version("(?s)^(?:.*/)?log_([0-9]+)$", "log_", filename)
}

/// The number of the table file at `filename`. It is a number only where
/// the last component of `filename` is `table_`, then one or more digits,
/// and nothing else, and then the number is what the digits denote.
pub fn table_file_version(filename: &str) -> (r: Option<usize>)
    ensures
        r == version_in(table_pattern(), table_prefix(), filename@),
        r is Some ==> r == named_number(table_prefix(), filename@),
{
    file_version("(?s)^(?:.*/)?table_([0-9]+)$", "table_", filename)
}

/// The path of `name` within the directory `root`.
fn join_path(root: &str, name: &str) -> (path: String)
    ensures
        path@ == join(root@, name@),
{
    let mut path = String::from_str(root);
    let len = root.unicode_len();
    if len > 0 && root.get_char(len - 1) != '/' {
        proof {
            reveal_strlit("/");
        }
        path.append("/");
        assert("/"@ =~= seq!['/']);
    }
    path.append(name);
    path
}

/// The directory's books: the newest log, the tables, and the numbers of the
/// files to come.
pub struct FileManager {
    root: String,
    log_path: Option<String>,
    log_version: usize,
    table_paths: Vec<String>,
    table_versions: Vec<usize>,
    table_count: usize,
    create_dir: bool,
}

impl FileManager {
    /// Whether the manager is in a consistent state: every table has its
    /// number, and the next table's number is greater than them all.
    pub closed spec fn wf(&self) -> bool {
        &&& self.table_paths@.len() == self.table_versions@.len()
        &&& forall|i: int|
            0 <= i < self.table_versions@.len() ==> (#[trigger] self.table_versions@[i])
                < self.table_count
        &&& forall|i: int|
            0 <= i < self.table_paths@.len() ==> named_number(
                table_prefix(),
                (#[trigger] self.table_paths@[i])@,
            ) == Some(self.table_versions@[i])
        &&& self.log_path matches Some(path) ==> named_number(log_prefix(), path@) is Some
    }

    /// Every file that the manager knows is named by its number: the last
    /// component of a table's path is `table_` and the digits of the
    /// table's number, and that of the newest log's path is `log_` and
    /// digits.
    pub proof fn lemma_files_are_named(&self)
        requires
            self.wf(),
        ensures
            forall|i: int|
                0 <= i < self.tables().len() ==> named_number(
                    table_prefix(),
                    (#[trigger] self.tables()[i]).1,
                ) == Some(self.tables()[i].0),
            self.newest_log_path() matches Some(path) ==> named_number(log_prefix(), path)
                is Some,
    {
    }

    /// The next table's number is greater than the number of any table.
    pub proof fn lemma_table_counter_is_new(&self)
        requires
            self.wf(),
        ensures
            self.table_numbers().len() == self.tables().len(),
            forall|i: int|
                0 <= i < self.tables().len() ==> self.table_numbers()[i] == (
                #[trigger] self.tables()[i]).0 && self.tables()[i].0 < self.table_counter(),
    {
    }

    /// The directory's path.
    pub closed spec fn root_dir(&self) -> Seq<char> {
        self.root@
    }

    /// The path of the newest log file, if there is one.
    pub closed spec fn newest_log_path(&self) -> Option<Seq<char>> {
        match self.log_path {
            Some(path) => Some(path@),
            None => None,
        }
    }

    /// The known table files, in the order in which they were found or
    /// named, each with its number.
    pub closed spec fn tables(&self) -> Seq<(usize, Seq<char>)> {
        Seq::new(
            self.table_paths@.len(),
            |i: int| (self.table_versions@[i], self.table_paths@[i]@),
        )
    }

    /// The number that the next log file gets.
    pub closed spec fn log_counter(&self) -> usize {
        self.log_version
    }

    /// The number that the next table file gets.
    pub closed spec fn table_counter(&self) -> usize {
        self.table_count
    }

    /// Whether the directory has yet to be made.
    pub closed spec fn creates_dir(&self) -> bool {
        self.create_dir
    }

    /// Opens the store's directory at `dir`, given what was found there.
    ///
    /// Where nothing was found, the directory is to be made, and holds no
    /// files. Where something other than a directory was found, the error is
    /// `InvalidInput`. Of a directory's entries, those are taken up that are
    /// no directories and whose last path component is `log_` or `table_`,
    /// then digits, and nothing else: the log with the greatest number is
    /// the newest log, and the next numbers follow the greatest in use.
    /// Every other entry is passed over. A number that has no successor is
    /// `InvalidInput` too.
    pub fn open_or_create(dir: &str, found: Found) -> (r: Result<FileManager, Error>)
        ensures
            match found {
                Found::Nothing => r is Ok && r->Ok_0.creates_dir() && r->Ok_0.newest_log_path()
                    is None && r->Ok_0.tables().len() == 0 && r->Ok_0.log_counter() == 0
                    && r->Ok_0.table_counter() == 0,
                Found::File => r is Err,
                Found::Directory(entries) => {
                    let logs = log_files(entries@);
                    let tables = table_files(entries@);
                    if next_number(logs) <= usize::MAX && next_number(tables) <= usize::MAX {
                        &&& r is Ok
                        &&& !r->Ok_0.creates_dir()
                        &&& r->Ok_0.tables() == tables
                        &&& r->Ok_0.log_counter() == next_number(logs)
                        &&& r->Ok_0.table_counter() == next_number(tables)
                        &&& r->Ok_0.newest_log_path() == match newest(logs) {
                            Some(best) => Some(best.1),
                            None => None,
                        }
                    } else {
                        r is Err
                    }
                },
            },
            r matches Ok(manager) ==> manager.wf() && manager.root_dir() == dir@,
            r matches Ok(manager) ==> forall|i: int|
                0 <= i < manager.tables().len() ==> named_number(
                    table_prefix(),
                    (#[trigger] manager.tables()[i]).1,
                ) == Some(manager.tables()[i].0),
            r matches Ok(manager) ==> (manager.newest_log_path() matches Some(path)
                ==> named_number(log_prefix(), path) is Some && named_number(
                log_prefix(),
                path,
            )->Some_0 + 1 == manager.log_counter()),
            r matches Err(e) ==> e.kind() == ErrorKind::InvalidInput,
    {
        let mut max_log_version: Option<usize> = None;
        let mut max_log_path: Option<String> = None;
        let mut max_table_version: Option<usize> = None;
        let mut table_paths: Vec<String> = Vec::new();
        let mut table_versions: Vec<usize> = Vec::new();
        let mut create_dir = false;
        match found {
            Found::Nothing => {
                create_dir = true;
            },
            Found::File => {
                return Err(Error::new(ErrorKind::InvalidInput));
            },
            Found::Directory(entries) => {
                let count = entries.len();
                let mut i: usize = 0;
                assert(entries@.subrange(0, 0) =~= Seq::<DirEntry>::empty());
                while i < count
                    invariant
                        count == entries@.len(),
                        i <= count,
                        table_paths@.len() == table_versions@.len(),
                        Seq::new(
                            table_paths@.len(),
                            |j: int| (table_versions@[j], table_paths@[j]@),
                        ) == table_files(entries@.subrange(0, i as int)),
                        match newest(
                            log_files(entries@.subrange(0, i as int)),
                        ) {
                            Some(best) => max_log_version == Some(best.0) && max_log_path is Some
                                && max_log_path->Some_0@ == best.1,
                            None => max_log_version is None && max_log_path is None,
                        },
                        match newest(
                            table_files(entries@.subrange(0, i as int)),
                        ) {
                            Some(best) => max_table_version == Some(best.0),
                            None => max_table_version is None,
                        },
                    decreases count - i,
                {
                    let entry = &entries[i];
                    let ghost seen = entries@.subrange(0, i as int);
                    let ghost next = entries@.subrange(0, i + 1);
                    assert(next.drop_last() =~= seen);
                    assert(next.last() == entries@[i as int]);
                    let ghost logs = log_files(seen);
                    let ghost tables = table_files(seen);
                    if !entry.is_dir {
                        match log_file_version(entry.path.as_str()) {
                            Some(v) => {
                                let newer = match max_log_version {
                                    Some(best) => v > best,
                                    None => true,
                                };
                                if newer {
                                    max_log_version = Some(v);
                                    max_log_path = Some(entry.path.clone());
                                }
                                assert(logs.push((v, entry.path@)).drop_last() =~= logs);
                            },
                            None => {},
                        }
                        match table_file_version(entry.path.as_str()) {
                            Some(v) => {
                                table_paths.push(entry.path.clone());
                                table_versions.push(v);
                                let newer = match max_table_version {
                                    Some(best) => v > best,
                                    None => true,
                                };
                                if newer {
                                    max_table_version = Some(v);
                                }
                                assert(tables.push((v, entry.path@)).drop_last() =~= tables);
                                assert(Seq::new(
                                    table_paths@.len(),
                                    |j: int| (table_versions@[j], table_paths@[j]@),
                                ) =~= tables.push((v, entry.path@)));
                            },
                            None => {},
                        }
                    }
                    i = i + 1;
                }
                assert(entries@.subrange(0, count as int) =~= entries@);
                proof {
                    let logs = log_files(entries@);
                    lemma_newest_is_greatest(logs);
                    lemma_numbered_files_are_named(entries@, log_pattern(), log_prefix());
                    lemma_numbered_files_are_named(entries@, table_pattern(), table_prefix());
                    if newest(logs) is Some {
                        let best = newest(logs)->Some_0;
                        let at = choose|at: int| 0 <= at < logs.len() && logs[at] == best;
                        assert(named_number(log_prefix(), logs[at].1) == Some(logs[at].0));
                    }
                    let tables = table_files(entries@);
                    assert forall|j: int| 0 <= j < table_paths@.len() implies named_number(
                        table_prefix(),
                        (#[trigger] table_paths@[j])@,
                    ) == Some(table_versions@[j]) by {
                        assert(tables[j] == (table_versions@[j], table_paths@[j]@));
                    }
                    lemma_newest_is_greatest(tables);
                    assert forall|j: int| 0 <= j < table_versions@.len() implies (
                    #[trigger] table_versions@[j]) <= max_table_version->Some_0 by {
                        assert(tables[j].0 == table_versions@[j]);
                    }
                }
            },
        }
        let log_version = match max_log_version {
            Some(v) => {
                if v == usize::MAX {
                    return Err(Error::new(ErrorKind::InvalidInput));
                }
                v + 1
            },
            None => 0,
        };
        let table_count = match max_table_version {
            Some(v) => {
                if v == usize::MAX {
                    return Err(Error::new(ErrorKind::InvalidInput));
                }
                v + 1
            },
            None => 0,
        };
        Ok(
            FileManager {
                root: String::from_str(dir),
                log_path: max_log_path,
                log_version,
                table_paths,
                table_versions,
                table_count,
                create_dir,
            },
        )
    }

    /// Names the next table file and takes it into the list of tables. The
    /// file itself is for the caller to write.
    pub fn new_table_file(&mut self) -> (path: String)
        requires
            old(self).wf(),
            old(self).table_counter() < usize::MAX,
        ensures
            final(self).wf(),
            path@ == table_path(old(self).root_dir(), old(self).table_counter()),
            named_number(table_prefix(), path@) == Some(old(self).table_counter()),
            final(self).table_counter() == old(self).table_counter() + 1,
            final(self).tables() == old(self).tables().push((old(self).table_counter(), path@)),
            final(self).root_dir() == old(self).root_dir(),
            final(self).newest_log_path() == old(self).newest_log_path(),
            final(self).log_counter() == old(self).log_counter(),
            final(self).creates_dir() == old(self).creates_dir(),
    {
        let ct = self.table_count;
        self.table_count = self.table_count + 1;
        let mut name = String::from_str("table_");
        name.append(to_decimal(ct).as_str());
        let path = join_path(self.root.as_str(), name.as_str());
        proof {
            lemma_paths_are_named(self.root@, ct);
        }
        self.table_paths.push(path.clone());
        self.table_versions.push(ct);
        assert(self.tables() =~= old(self).tables().push((ct, path@)));
        path
    }

    /// Names the next log file, which is from now on the newest log. The
    /// file itself is for the caller to write.
    pub fn new_log_file(&mut self) -> (path: String)
        requires
            old(self).wf(),
            old(self).log_counter() < usize::MAX,
        ensures
            final(self).wf(),
            path@ == log_path(old(self).root_dir(), old(self).log_counter()),
            named_number(log_prefix(), path@) == Some(old(self).log_counter()),
            final(self).log_counter() == old(self).log_counter() + 1,
            final(self).newest_log_path() == Some(path@),
            final(self).root_dir() == old(self).root_dir(),
            final(self).tables() == old(self).tables(),
            final(self).table_counter() == old(self).table_counter(),
            final(self).creates_dir() == old(self).creates_dir(),
    {
        let v = self.log_version;
        self.log_version = self.log_version + 1;
        let mut name = String::from_str("log_");
        name.append(to_decimal(v).as_str());
        let path = join_path(self.root.as_str(), name.as_str());
        proof {
            lemma_paths_are_named(self.root@, v);
        }
        self.log_path = Some(path.clone());
        path
    }

    /// The path of the newest log file: the one with the greatest number
    /// that was found when the directory was opened, or the one named last.
    pub fn latest_log(&self) -> (r: Option<String>)
        ensures
            match r {
                Some(path) => self.newest_log_path() == Some(path@),
                None => self.newest_log_path() is None,
            },
    {
        match &self.log_path {
            Some(path) => Some(path.clone()),
            None => None,
        }
    }

    /// The paths of the known table files, in the order in which they were
    /// found or named.
    pub fn table_paths(&self) -> (paths: Vec<String>)
        requires
            self.wf(),
        ensures
            paths@.len() == self.tables().len(),
            forall|i: int| 0 <= i < paths@.len() ==> (#[trigger] paths@[i])@ == self.tables()[i].1,
    {
        let mut paths: Vec<String> = Vec::new();
        let count = self.table_paths.len();
        let mut i: usize = 0;
        while i < count
            invariant
                count == self.table_paths@.len(),
                i <= count,
                paths@.len() == i,
                forall|j: int| 0 <= j < i ==> (#[trigger] paths@[j])@ == self.table_paths@[j]@,
            decreases count - i,
        {
            paths.push(self.table_paths[i].clone());
            i = i + 1;
        }
        paths
    }

    /// The number that the next log file gets.
    pub fn next_log_number(&self) -> (n: usize)
        ensures
            n == self.log_counter(),
    {
        self.log_version
    }

    /// The number that the next table file gets.
    pub fn next_table_number(&self) -> (n: usize)
        ensures
            n == self.table_counter(),
    {
        self.table_count
    }

    /// Whether the caller has yet to make the directory.
    pub fn must_create_dir(&self) -> (b: bool)
        ensures
            b == self.creates_dir(),
    {
        self.create_dir
    }

    /// The numbers of the known tables, in the order of `table_paths`.
    pub closed spec fn table_numbers(&self) -> Seq<usize> {
        self.table_versions@
    }

    /// The places in `table_paths` of all tables, newest first: by falling
    /// number, and of two tables with one number the later one first.
    pub fn newest_first(&self) -> (order: Vec<usize>)
        requires
            self.wf(),
        ensures
            is_newest_first(self.table_numbers(), order@),
            self.table_numbers().len() == self.tables().len(),
            forall|i: int|
                0 <= i < self.tables().len() ==> self.table_numbers()[i] == (
                #[trigger] self.tables()[i]).0,
    {
        let count = self.table_versions.len();
        let ghost numbers = self.table_versions@;
        let mut order: Vec<usize> = Vec::new();
        let mut i: usize = 0;
        while i < count
            invariant
                count == numbers.len(),
                numbers == self.table_versions@,
                i <= count,
                order@.len() == i,
                forall|p: int| 0 <= p < order@.len() ==> (#[trigger] order@[p]) < i,
                forall|p: int, q: int|
                    0 <= p < q < order@.len() ==> newer(
                        numbers,
                        order@[p] as int,
                        order@[q] as int,
                    ),
                forall|j: usize| j < i ==> order@.contains(j),
            decreases count - i,
        {
            let v = self.table_versions[i];
            let mut at: usize = 0;
            while at < order.len() && self.table_versions[order[at]] > v
                invariant
                    numbers == self.table_versions@,
                    at <= order@.len(),
                    i < numbers.len(),
                    v == numbers[i as int],
                    forall|p: int| 0 <= p < order@.len() ==> (#[trigger] order@[p]) < i,
                    forall|p: int| 0 <= p < at ==> numbers[(#[trigger] order@[p]) as int] > v,
                decreases order@.len() - at,
            {
                at = at + 1;
            }
            let ghost before = order@;
            order.insert(at, i);
            proof {
                let after = order@;
                assert forall|p: int, q: int| 0 <= p < q < after.len() implies newer(
                    numbers,
                    after[p] as int,
                    after[q] as int,
                ) by {
                    if q < at {
                        assert(after[p] == before[p] && after[q] == before[q]);
                    } else if q == at {
                        assert(after[p] == before[p]);
                    } else if p < at {
                        assert(after[p] == before[p] && after[q] == before[q - 1]);
                    } else if p == at {
                        assert(after[q] == before[q - 1]);
                        assert(newer(numbers, before[at as int] as int, before[q - 1] as int)
                            || q - 1 == at);
                    } else {
                        assert(after[p] == before[p - 1] && after[q] == before[q - 1]);
                    }
                }
                assert forall|j: usize| j < i + 1 implies after.contains(j) by {
                    if j < i {
                        assert(before.contains(j));
                        let p = choose|p: int| 0 <= p < before.len() && before[p] == j;
                        if p < at {
                            assert(after[p] == j);
                        } else {
                            assert(after[p + 1] == j);
                        }
                    } else {
                        assert(after[at as int] == j);
                    }
                }
                assert forall|p: int| 0 <= p < after.len() implies (#[trigger] after[p]) < i
                    + 1 by {
                    if p < at {
                        assert(after[p] == before[p]);
                    } else if p > at {
                        assert(after[p] == before[p - 1]);
                    }
                }
            }
            i = i + 1;
        }
        order
    }
}

} // verus!
