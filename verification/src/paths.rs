//! Finding the trajectory file to read: an explicit path wins; otherwise the
//! newest `trajectory_*.csv` file of the first default directory that has one.

use vstd::prelude::*;

verus! {

/// Number of default directories searched, in order: `output`, then `../output`.
pub const SEARCH_DIR_COUNT: usize = 2;

/// The extension of a file name, as `Path::extension` finds it: the text after
/// the last `.`, unless there is no `.`, the only leading `.` starts the name,
/// or the name is `..`.
pub open spec fn extension(name: Seq<char>) -> Option<Seq<char>> {
    if name == seq!['.', '.'] {
        None
    } else if exists|d: int| 0 <= d < name.len() && name[d] == '.' {
        let d = last_dot(name);
        if d == 0 {
            None
        } else {
            Some(name.skip(d + 1))
        }
    } else {
        None
    }
}

/// Index of the last `.` of a name that has one.
pub open spec fn last_dot(name: Seq<char>) -> int {
    choose|d: int|
        0 <= d < name.len() && name[d] == '.' && forall|e: int| d < e < name.len() ==> name[e] != '.'
}

/// The name has the extension `csv`.
pub open spec fn is_csv_name(name: Seq<char>) -> bool {
    extension(name) == Some(seq!['c', 's', 'v'])
}

/// Whether a file name has the extension `csv` (case-sensitive).
pub fn has_csv_extension(file_name: &str) -> (r: bool)
    ensures
        r == is_csv_name(file_name@),
{
    let name = crate::csv_text::chars_of(file_name);
    let n = name.len();
    if n == 2 && name[0] == '.' && name[1] == '.' {
        proof {
            assert(name@ =~= seq!['.', '.']);
        }
        return false;
    }
    proof {
        assert(name@ != seq!['.', '.']);
    }
    let mut d = n;
    while d > 0 && name[d - 1] != '.'
        invariant
            d <= n,
            n == name@.len(),
            forall|e: int| d <= e < n ==> name@[e] != '.',
        decreases d,
    {
        d -= 1;
    }
    if d == 0 {
        proof {
            assert(!exists|i: int| 0 <= i < name@.len() && name@[i] == '.');
        }
        return false;
    }
    let dot = d - 1;
    proof {
        assert(0 <= dot < name@.len() && name@[dot as int] == '.');
        let ld = last_dot(name@);
        assert(forall|e: int| dot < e < n ==> name@[e] != '.');
        assert(ld == dot as int) by {
            if ld < dot {
                assert(name@[dot as int] != '.');
            }
            if ld > dot {
                assert(name@[ld] != '.');
            }
        }
    }
    if dot == 0 {
        return false;
    }
    let r = n - dot == 4 && name[dot + 1] == 'c' && name[dot + 2] == 's' && name[dot + 3] == 'v';
    proof {
        let ext = name@.skip(dot + 1);
        if r {
            assert(ext =~= seq!['c', 's', 'v']);
        } else if ext == seq!['c', 's', 'v'] {
            assert(ext.len() == 3);
            assert(ext[0] == name@[dot + 1]);
            assert(ext[1] == name@[dot + 2]);
            assert(ext[2] == name@[dot + 3]);
        }
    }
    r
}

/// The name prefix of recorded trajectory files.
pub open spec fn trajectory_prefix() -> Seq<char> {
    seq!['t', 'r', 'a', 'j', 'e', 'c', 't', 'o', 'r', 'y', '_']
}

/// The name of a recorded trajectory file: `trajectory_*.csv`, that is the
/// prefix `trajectory_` and the extension `csv`.
pub open spec fn is_trajectory_csv_name(name: Seq<char>) -> bool {
    &&& name.len() >= 11
    &&& name.take(11) == trajectory_prefix()
    &&& is_csv_name(name)
}

/// Whether a file name is that of a recorded trajectory, `trajectory_*.csv`
/// (case-sensitive); only such files are candidates for the default file.
pub fn is_trajectory_csv(file_name: &str) -> (r: bool)
    ensures
        r == is_trajectory_csv_name(file_name@),
{
    let name = crate::csv_text::chars_of(file_name);
    let prefix: [char; 11] = ['t', 'r', 'a', 'j', 'e', 'c', 't', 'o', 'r', 'y', '_'];
    proof {
        assert(prefix@ =~= trajectory_prefix());
    }
    if name.len() < 11 {
        return false;
    }
    let mut i: usize = 0;
    while i < 11
        invariant
            i <= 11,
            name@ == file_name@,
            name@.len() >= 11,
            prefix@ == trajectory_prefix(),
            forall|j: int| 0 <= j < i ==> name@[j] == prefix@[j],
        decreases 11 - i,
    {
        if name[i] != prefix[i] {
            proof {
                assert(name@.take(11)[i as int] != trajectory_prefix()[i as int]);
            }
            return false;
        }
        i += 1;
    }
    proof {
        assert(name@.take(11) =~= trajectory_prefix());
    }
    has_csv_extension(file_name)
}

/// The newest of some modification times: the index of the first largest, or
/// `None` when there are none. Ties keep the earlier entry.
pub fn newest_index(modified: &[i128]) -> (r: Option<usize>)
    ensures
        match r {
            None => modified@.len() == 0,
            Some(i) => {
                &&& i < modified@.len()
                &&& forall|j: int| 0 <= j < modified@.len() ==> modified@[j] <= modified@[i as int]
                &&& forall|j: int| 0 <= j < i ==> modified@[j] < modified@[i as int]
            },
        },
{
    let mut best: Option<usize> = None;
    let mut k: usize = 0;
    while k < modified.len()
        invariant
            k <= modified@.len(),
            match best {
                None => k == 0,
                Some(i) => {
                    &&& i < k
                    &&& forall|j: int| 0 <= j < k ==> modified@[j] <= modified@[i as int]
                    &&& forall|j: int| 0 <= j < i ==> modified@[j] < modified@[i as int]
                },
            },
        decreases modified@.len() - k,
    {
        match best {
            Some(i) if modified[k] <= modified[i] => {},
            _ => {
                best = Some(k);
            },
        }
        k += 1;
    }
    best
}

/// Where to take the trajectory file from.
#[derive(Debug)]
pub enum CsvSource {
    /// Read this path.
    Use(String),
    /// Look for the newest `trajectory_*.csv` file in default directory number `i` (see
    /// `search_dir`) and call again with what was found appended.
    Search(usize),
    /// No path was given and no default directory has a `trajectory_*.csv` file.
    NotFound,
}

/// Default directory number `i`.
pub fn search_dir(i: usize) -> (dir: &'static str)
    requires
        i < SEARCH_DIR_COUNT,
    ensures
        dir@ == (if i == 0 {
            "output"@
        } else {
            "../output"@
        }),
{
    if i == 0 {
        "output"
    } else {
        "../output"
    }
}

/// Decides where the trajectory comes from, given the path from the command
/// line and the newest `trajectory_*.csv` file found so far in each default directory
/// searched, in order. A given path wins; then the first directory with a file;
/// while some directory is still unsearched, the next one is asked for.
pub fn resolve_csv_path(arg: Option<String>, searched: &[Option<String>]) -> (r: CsvSource)
    requires
        searched@.len() <= SEARCH_DIR_COUNT,
    ensures
        match arg {
            Some(p) => r == CsvSource::Use(p),
            None => match r {
                CsvSource::Use(p) => exists|i: int|
                    0 <= i < searched@.len() && searched@[i] == Some(p) && forall|j: int|
                        0 <= j < i ==> searched@[j] is None,
                CsvSource::Search(i) => i == searched@.len() && i < SEARCH_DIR_COUNT && forall|
                    j: int,
                | 0 <= j < searched@.len() ==> searched@[j] is None,
                CsvSource::NotFound => searched@.len() == SEARCH_DIR_COUNT && forall|j: int|
                    0 <= j < searched@.len() ==> searched@[j] is None,
            },
        },
{
    match arg {
        Some(path) => CsvSource::Use(path),
        None => first_found(searched),
    }
}

/// The first directory result that found a file, the next directory to search,
/// or `NotFound` once all were searched in vain.
fn first_found(searched: &[Option<String>]) -> (r: CsvSource)
    requires
        searched@.len() <= SEARCH_DIR_COUNT,
    ensures
        match r {
            CsvSource::Use(p) => exists|i: int|
                0 <= i < searched@.len() && searched@[i] == Some(p) && forall|j: int|
                    0 <= j < i ==> searched@[j] is None,
            CsvSource::Search(i) => i == searched@.len() && i < SEARCH_DIR_COUNT && forall|j: int|
                0 <= j < searched@.len() ==> searched@[j] is None,
            CsvSource::NotFound => searched@.len() == SEARCH_DIR_COUNT && forall|j: int|
                0 <= j < searched@.len() ==> searched@[j] is None,
        },
{
    let mut k: usize = 0;
    while k < searched.len()
        invariant
            k <= searched@.len(),
            forall|j: int| 0 <= j < k ==> searched@[j] is None,
        decreases searched@.len() - k,
    {
        if let Some(path) = &searched[k] {
            return CsvSource::Use(path.clone());
        }
        k += 1;
    }
    if searched.len() < SEARCH_DIR_COUNT {
        CsvSource::Search(searched.len())
    } else {
        CsvSource::NotFound
    }
}

} // verus!
