use vstd::prelude::*;
use vstd::pervasive::VecAdditionalExecFns;
use vstd::string::StringExecFns;

use crate::error::LsError;
use crate::paths::str_eq;
use crate::position::bytes_of;

verus! {

broadcast use vstd::seq::group_seq_axioms, vstd::std_specs::vec::group_vec_axioms;

#[verifier::external_type_specification]
#[verifier::external_body]
pub struct ExIni(ini::Ini);

/// The key-value pairs of a section, in order.
pub type Entries = Seq<(Seq<char>, Seq<char>)>;

/// The sections of an INI document in order: each with its name (none for the
/// general section) and its key-value pairs in order.
pub uninterp spec fn ini_sections(i: ini::Ini) -> Seq<(Option<Seq<char>>, Entries)>;

/// The pairs of the first section called `name`.
pub open spec fn first_section(secs: Seq<(Option<Seq<char>>, Entries)>, name: Seq<char>) -> Option<Entries>
    decreases secs.len(),
{
    if secs.len() == 0 {
        None
    } else if secs[0].0 == Some(name) {
        Some(secs[0].1)
    } else {
        first_section(secs.drop_first(), name)
    }
}

pub open spec fn pair_views(v: Seq<(String, String)>) -> Entries {
    v.map_values(|p: (String, String)| (p.0@, p.1@))
}

/// Relies on `ini::Ini::section`, which gives the first section of that name,
/// and on `ini::Properties::iter`, which gives its pairs in order.
#[verifier::external_body]
fn section_entries(ini: &ini::Ini, name: &str) -> (r: Option<Vec<(String, String)>>)
    ensures
        match first_section(ini_sections(*ini), name@) {
            Some(es) => r matches Some(v) && pair_views(v@) == es,
            None => r is None,
        },
{
    ini.section(Some(name)).map(|p| p.iter().map(|(k, v)| (k.to_string(), v.to_string())).collect())
}

/// The first value of `key` among the pairs.
pub open spec fn first_value(es: Entries, key: Seq<char>) -> Option<Seq<char>>
    decreases es.len(),
{
    if es.len() == 0 {
        None
    } else if es[0].0 == key {
        Some(es[0].1)
    } else {
        first_value(es.drop_first(), key)
    }
}

/// Why a project descriptor cannot be read.
#[derive(Debug, PartialEq, Eq)]
pub enum McpError {
    MissingSection(String),
    MissingField(String),
    UnknownFileKey(String),
}

pub enum McpErrorView {
    MissingSection(Seq<char>),
    MissingField(Seq<char>),
    UnknownFileKey(Seq<char>),
}

impl View for McpError {
    type V = McpErrorView;

    open spec fn view(&self) -> McpErrorView {
        match self {
            McpError::MissingSection(s) => McpErrorView::MissingSection(s@),
            McpError::MissingField(s) => McpErrorView::MissingField(s@),
            McpError::UnknownFileKey(s) => McpErrorView::UnknownFileKey(s@),
        }
    }
}

/// A file of the project: its path relative to the project, its folder in the
/// project tree, and whether it is marked as other or generated.
pub struct MPLABFile {
    pub path: String,
    pub subfolder: String,
    pub is_other: bool,
    pub is_generated: bool,
}

pub struct MPLABFileView {
    pub path: Seq<char>,
    pub subfolder: Seq<char>,
    pub is_other: bool,
    pub is_generated: bool,
}

impl View for MPLABFile {
    type V = MPLABFileView;

    open spec fn view(&self) -> MPLABFileView {
        MPLABFileView { path: self.path@, subfolder: self.subfolder@, is_other: self.is_other, is_generated: self.is_generated }
    }
}

impl MPLABFile {
    /// A plain project file at `path`, in the top folder.
    pub fn new(path: String) -> (r: Self)
        ensures
            r@ == (MPLABFileView { path: path@, subfolder: "."@, is_other: false, is_generated: false }),
    {
        MPLABFile { path, subfolder: String::from_str("."), is_other: false, is_generated: false }
    }

    fn duplicate(&self) -> (r: Self)
        ensures
            r@ == self@,
    {
        MPLABFile {
            path: self.path.clone(),
            subfolder: self.subfolder.clone(),
            is_other: self.is_other,
            is_generated: self.is_generated,
        }
    }
}

/// The project files by key, each key once, in the order first given.
pub type FileTable = Seq<(Seq<char>, MPLABFileView)>;

pub open spec fn file_views(v: Seq<(String, MPLABFile)>) -> FileTable {
    v.map_values(|p: (String, MPLABFile)| (p.0@, p.1@))
}

/// Index of the entry with key `k`.
pub open spec fn key_index(t: FileTable, k: Seq<char>) -> Option<int>
    decreases t.len(),
{
    if t.len() == 0 {
        None
    } else if t.last().0 == k {
        Some(t.len() - 1)
    } else {
        key_index(t.drop_last(), k)
    }
}

proof fn lemma_key_index_bounds(t: FileTable, k: Seq<char>)
    ensures
        key_index(t, k) matches Some(i) ==> 0 <= i < t.len() && t[i].0 == k,
    decreases t.len(),
{
    if t.len() > 0 {
        lemma_key_index_bounds(t.drop_last(), k);
    }
}

/// The files of `[FILE_INFO]`: a later pair of the same key replaces the file.
pub open spec fn files_of(es: Entries) -> FileTable
    decreases es.len(),
{
    if es.len() == 0 {
        Seq::empty()
    } else {
        let t = files_of(es.drop_last());
        let f = MPLABFileView { path: es.last().1, subfolder: "."@, is_other: false, is_generated: false };
        match key_index(t, es.last().0) {
            Some(i) => t.update(i, (es.last().0, f)),
            None => t.push((es.last().0, f)),
        }
    }
}

/// The marks that a section sets on the files.
#[derive(Clone, Copy, PartialEq, Eq, Structural)]
pub enum Mark {
    Other,
    Generated,
    Subfolder,
}

pub open spec fn contains_bytes(s: Seq<u8>, t: Seq<u8>) -> bool {
    exists|i: int| 0 <= i && i + t.len() <= s.len() && #[trigger] s.subrange(i, i + t.len()) == t
}

/// File `f` after the pair with value `v` of the section for mark `m`.
pub open spec fn marked(f: MPLABFileView, m: Mark, v: Seq<char>) -> MPLABFileView {
    match m {
        Mark::Other => MPLABFileView { is_other: v == "yes"@, ..f },
        Mark::Generated => if contains_bytes(bytes_of(v), bytes_of("$(ProjectDir)"@)) {
            MPLABFileView { is_generated: true, ..f }
        } else {
            f
        },
        Mark::Subfolder => MPLABFileView { subfolder: v, ..f },
    }
}

/// The files after the pairs of a marking section, or the first key that names
/// no file; a folder given for a key that names no file is passed over.
pub open spec fn mark_files(t: FileTable, es: Entries, m: Mark) -> Result<FileTable, Seq<char>>
    decreases es.len(),
{
    if es.len() == 0 {
        Ok(t)
    } else {
        match mark_files(t, es.drop_last(), m) {
            Ok(t2) => match key_index(t2, es.last().0) {
                Some(i) => Ok(t2.update(i, (es.last().0, marked(t2[i].1, m, es.last().1)))),
                None => if m == Mark::Subfolder {
                    Ok(t2)
                } else {
                    Err(es.last().0)
                },
            },
            Err(k) => Err(k),
        }
    }
}

/// The files with the folders of `[FILE_SUBFOLDERS]` set.
pub open spec fn subfolder_files(t: FileTable, es: Entries) -> FileTable {
    mark_files(t, es, Mark::Subfolder)->Ok_0
}

/// Setting folders never fails: a key that names no file is passed over.
pub proof fn lemma_subfolders_never_fail(t: FileTable, es: Entries)
    ensures
        mark_files(t, es, Mark::Subfolder) is Ok,
    decreases es.len(),
{
    if es.len() > 0 {
        lemma_subfolders_never_fail(t, es.drop_last());
    }
}

/// The project configuration of an MPLAB project descriptor.
pub struct MPLABProjectConfig {
    pub file_version: String,
    pub device: String,
    pub files: Vec<(String, MPLABFile)>,
    pub suite_guid: String,
    pub tool_settings: Vec<(String, String)>,
}

pub struct ConfigView {
    pub file_version: Seq<char>,
    pub device: Seq<char>,
    pub files: FileTable,
    pub suite_guid: Seq<char>,
    pub tool_settings: Entries,
}

impl View for MPLABProjectConfig {
    type V = ConfigView;

    open spec fn view(&self) -> ConfigView {
        ConfigView {
            file_version: self.file_version@,
            device: self.device@,
            files: file_views(self.files@),
            suite_guid: self.suite_guid@,
            tool_settings: pair_views(self.tool_settings@),
        }
    }
}

/// What the descriptor with sections `secs` configures, or why it cannot:
/// `[HEADER]` with `file_version` and `device`, `[SUITE_INFO]` with
/// `suite_guid`, `[TOOL_SETTINGS]`, the files of `[FILE_INFO]` marked by
/// `[OTHER_FILES]` and `[GENERATED_FILES]`, and by `[FILE_SUBFOLDERS]` where
/// there is one. A key of `[OTHER_FILES]` or `[GENERATED_FILES]` that names no
/// file is an error; one of `[FILE_SUBFOLDERS]` is passed over.
pub open spec fn config_of(secs: Seq<(Option<Seq<char>>, Entries)>) -> Result<ConfigView, McpErrorView> {
    let header = first_section(secs, "HEADER"@);
    let suite = first_section(secs, "SUITE_INFO"@);
    let tools = first_section(secs, "TOOL_SETTINGS"@);
    let info = first_section(secs, "FILE_INFO"@);
    let other = first_section(secs, "OTHER_FILES"@);
    let generated = first_section(secs, "GENERATED_FILES"@);
    let sub = first_section(secs, "FILE_SUBFOLDERS"@);
    if header is None {
        Err(McpErrorView::MissingSection("HEADER"@))
    } else if first_value(header->0, "file_version"@) is None {
        Err(McpErrorView::MissingField("file_version"@))
    } else if first_value(header->0, "device"@) is None {
        Err(McpErrorView::MissingField("device"@))
    } else if suite is None {
        Err(McpErrorView::MissingSection("SUITE_INFO"@))
    } else if first_value(suite->0, "suite_guid"@) is None {
        Err(McpErrorView::MissingField("suite_guid"@))
    } else if tools is None {
        Err(McpErrorView::MissingSection("TOOL_SETTINGS"@))
    } else if info is None {
        Err(McpErrorView::MissingSection("FILE_INFO"@))
    } else if other is None {
        Err(McpErrorView::MissingSection("OTHER_FILES"@))
    } else {
        match mark_files(files_of(info->0), other->0, Mark::Other) {
            Err(k) => Err(McpErrorView::UnknownFileKey(k)),
            Ok(t1) => if generated is None {
                Err(McpErrorView::MissingSection("GENERATED_FILES"@))
            } else {
                match mark_files(t1, generated->0, Mark::Generated) {
                    Err(k) => Err(McpErrorView::UnknownFileKey(k)),
                    Ok(t2) => {
                        let files = match sub {
                            Some(es) => subfolder_files(t2, es),
                            None => t2,
                        };
                        Ok(ConfigView {
                            file_version: first_value(header->0, "file_version"@)->0,
                            device: first_value(header->0, "device"@)->0,
                            files,
                            suite_guid: first_value(suite->0, "suite_guid"@)->0,
                            tool_settings: tools->0,
                        })
                    },
                }
            },
        }
    }
}

fn contains_str(s: &str, t: &str) -> (r: bool)
    ensures
        r == contains_bytes(bytes_of(s@), bytes_of(t@)),
{
    let x = s.as_bytes();
    let y = t.as_bytes();
    if y.len() > x.len() {
        return false;
    }
    let mut i: usize = 0;
    let xl = x.len();
    while i <= xl - y.len()
        invariant
            xl == x@.len(),
            x@ == bytes_of(s@),
            y@ == bytes_of(t@),
            y@.len() <= x@.len(),
            i <= x@.len() - y@.len() + 1,
            forall|j: int| 0 <= j < i ==> #[trigger] x@.subrange(j, j + y@.len()) != y@,
        decreases x@.len() - i,
    {
        let mut k: usize = 0;
        let mut same = true;
        while k < y.len() && same
            invariant
                i + y@.len() <= x@.len(),
                xl == x@.len(),
                k <= y@.len(),
                same ==> forall|m: int| 0 <= m < k ==> x@[i + m] == y@[m],
                !same ==> k < y@.len() && x@[i + k] != y@[k as int],
            decreases y@.len() - k + (if same { 1int } else { 0int }),
        {
            if x[i + k] == y[k] {
                k = k + 1;
            } else {
                same = false;
            }
        }
        if same {
            assert(x@.subrange(i as int, i + y@.len()) =~= y@);
            return true;
        }
        assert(x@.subrange(i as int, i + y@.len())[k as int] != y@[k as int]);
        i = i + 1;
    }
    false
}

fn first_value_of(es: &Vec<(String, String)>, key: &str) -> (r: Option<String>)
    ensures
        match first_value(pair_views(es@), key@) {
            Some(v) => r matches Some(x) && x@ == v,
            None => r is None,
        },
{
    let ghost pv = pair_views(es@);
    let mut i: usize = 0;
    assert(pv.subrange(0, pv.len() as int) =~= pv);
    while i < es.len()
        invariant
            i <= es@.len(),
            pv == pair_views(es@),
            first_value(pv, key@) == first_value(pv.subrange(i as int, pv.len() as int), key@),
        decreases es@.len() - i,
    {
        assert(pv.subrange(i as int, pv.len() as int)[0] == pv[i as int]);
        assert(pv.subrange(i as int, pv.len() as int).drop_first() =~= pv.subrange(i + 1, pv.len() as int));
        if str_eq(es[i].0.as_str(), key) {
            return Some(es[i].1.clone());
        }
        i = i + 1;
    }
    None
}

fn find_file(files: &Vec<(String, MPLABFile)>, k: &str) -> (r: Option<usize>)
    ensures
        r == match key_index(file_views(files@), k@) {
            Some(i) => Some(i as usize),
            None => None::<usize>,
        },
        r matches Some(j) ==> j < files@.len(),
        key_index(file_views(files@), k@) matches Some(i) ==> 0 <= i < files@.len() && i < usize::MAX,
{
    proof {
        lemma_key_index_bounds(file_views(files@), k@);
    }
    let ghost t = file_views(files@);
    let mut i: usize = files.len();
    assert(t.subrange(0, t.len() as int) =~= t);
    while i > 0
        invariant
            i <= files@.len(),
            t == file_views(files@),
            key_index(t, k@) == key_index(t.subrange(0, i as int), k@),
        decreases i,
    {
        assert(t.subrange(0, i as int).last() == t[i - 1]);
        assert(t.subrange(0, i as int).drop_last() =~= t.subrange(0, i - 1));
        if str_eq(files[i - 1].0.as_str(), k) {
            return Some(i - 1);
        }
        i = i - 1;
    }
    None
}

/// The project files of the `[FILE_INFO]` pairs.
fn get_file_names(es: &Vec<(String, String)>) -> (r: Vec<(String, MPLABFile)>)
    ensures
        file_views(r@) == files_of(pair_views(es@)),
{
    let ghost pv = pair_views(es@);
    let mut files: Vec<(String, MPLABFile)> = Vec::new();
    let mut i: usize = 0;
    while i < es.len()
        invariant
            i <= es@.len(),
            pv == pair_views(es@),
            file_views(files@) == files_of(pv.subrange(0, i as int)),
        decreases es@.len() - i,
    {
        let k = &es[i].0;
        let v = &es[i].1;
        let ks = k.as_str();
        let f = MPLABFile::new(v.clone());
        let ghost before = file_views(files@);
        assert(pv[i as int] == (k@, v@));
        proof {
            let sub = pv.subrange(0, i + 1);
            assert(sub.drop_last() =~= pv.subrange(0, i as int));
            assert(sub.last() == pv[i as int]);
        }
        let idx = find_file(&files, ks);
        proof {
            lemma_key_index_bounds(before, k@);
        }
        match idx {
            Some(j) => {
                assert(key_index(before, k@) == Some(j as int));
                files.set(j, (k.clone(), f));
                assert(file_views(files@) =~= before.update(j as int, (k@, f@)));
            },
            None => {
                assert(key_index(before, k@) is None);
                files.push((k.clone(), f));
                assert(file_views(files@) =~= before.push((k@, f@)));
            },
        }
        assert(file_views(files@) == files_of(pv.subrange(0, i + 1)));
        i = i + 1;
    }
    assert(pv.subrange(0, i as int) =~= pv);
    files
}

/// The files after the pairs of a marking section, or the key that names no file.
fn mark_all(table: Vec<(String, MPLABFile)>, es: &Vec<(String, String)>, m: Mark) -> (r: Result<Vec<(String, MPLABFile)>, String>)
    ensures
        match mark_files(file_views(table@), pair_views(es@), m) {
            Ok(t) => r matches Ok(v) && file_views(v@) == t,
            Err(k) => r matches Err(x) && x@ == k,
        },
{
    let ghost pv = pair_views(es@);
    let ghost t0 = file_views(table@);
    let mut files = table;
    let mut i: usize = 0;
    assert(pv.subrange(0, 0) =~= Seq::<(Seq<char>, Seq<char>)>::empty());
    while i < es.len()
        invariant
            i <= es@.len(),
            pv == pair_views(es@),
            t0 == file_views(table@),
            mark_files(t0, pv.subrange(0, i as int), m) == Ok::<FileTable, Seq<char>>(file_views(files@)),
        decreases es@.len() - i,
    {
        let k = &es[i].0;
        let v = &es[i].1;
        let ks = k.as_str();
        proof {
            let sub = pv.subrange(0, i + 1);
            assert(sub.drop_last() =~= pv.subrange(0, i as int));
            assert(sub.last() == pv[i as int]);
        }
        let ghost before = file_views(files@);
        assert(pv[i as int] == (k@, v@));
        match find_file(&files, ks) {
            Some(j) => {
                let old_f = files[j].1.duplicate();
                let f = match m {
                    Mark::Other => MPLABFile { is_other: str_eq(v.as_str(), "yes"), ..old_f },
                    Mark::Generated => if contains_str(v.as_str(), "$(ProjectDir)") {
                        MPLABFile { is_generated: true, ..old_f }
                    } else {
                        old_f
                    },
                    Mark::Subfolder => MPLABFile { subfolder: v.clone(), ..old_f },
                };
                assert(f@ == marked(before[j as int].1, m, v@));
                files.set(j, (k.clone(), f));
                assert(file_views(files@) =~= before.update(j as int, (k@, marked(before[j as int].1, m, v@))));
            },
            None => {
                if m == Mark::Subfolder {
                    assert(mark_files(t0, pv.subrange(0, i + 1), m) == Ok::<FileTable, Seq<char>>(file_views(files@)));
                    i = i + 1;
                    continue;
                }
                proof {
                    assert(mark_files(t0, pv.subrange(0, i + 1), m) == Err::<FileTable, Seq<char>>(k@));
                    lemma_mark_error_stays(t0, pv, (i + 1) as int, m);
                    assert(mark_files(t0, pv, m) == Err::<FileTable, Seq<char>>(k@));
                }
                let kk = k.clone();
                assert(kk@ == k@);
                return Err(kk);
            },
        }
        i = i + 1;
    }
    assert(pv.subrange(0, i as int) =~= pv);
    Ok(files)
}

/// A marking key that names no file stays the error when more pairs follow.
proof fn lemma_mark_error_stays(t: FileTable, es: Entries, n: int, m: Mark)
    requires
        0 <= n <= es.len(),
        mark_files(t, es.subrange(0, n), m) is Err,
    ensures
        mark_files(t, es, m) == mark_files(t, es.subrange(0, n), m),
    decreases es.len(),
{
    if n < es.len() {
        assert(es.drop_last().subrange(0, n) =~= es.subrange(0, n));
        lemma_mark_error_stays(t, es.drop_last(), n, m);
    } else {
        assert(es.subrange(0, n) =~= es);
    }
}

fn required_section(ini: &ini::Ini, name: &str) -> (r: Result<Vec<(String, String)>, McpError>)
    ensures
        match first_section(ini_sections(*ini), name@) {
            Some(es) => r matches Ok(v) && pair_views(v@) == es,
            None => r matches Err(e) && e@ == McpErrorView::MissingSection(name@),
        },
{
    match section_entries(ini, name) {
        Some(v) => Ok(v),
        None => Err(McpError::MissingSection(name.to_string())),
    }
}

fn required_field(es: &Vec<(String, String)>, field: &str) -> (r: Result<String, McpError>)
    ensures
        match first_value(pair_views(es@), field@) {
            Some(v) => r matches Ok(x) && x@ == v,
            None => r matches Err(e) && e@ == McpErrorView::MissingField(field@),
        },
{
    match first_value_of(es, field) {
        Some(v) => Ok(v),
        None => Err(McpError::MissingField(field.to_string())),
    }
}

impl MPLABProjectConfig {
    /// Reads the configuration of an MPLAB project descriptor.
    pub fn from_ini(ini: &ini::Ini) -> (r: Result<Self, McpError>)
        ensures
            match config_of(ini_sections(*ini)) {
                Ok(c) => r matches Ok(x) && x@ == c,
                Err(e) => r matches Err(x) && x@ == e,
            },
    {
        let header = required_section(ini, "HEADER")?;
        let file_version = required_field(&header, "file_version")?;
        let device = required_field(&header, "device")?;
        let suite_info = required_section(ini, "SUITE_INFO")?;
        let suite_guid = required_field(&suite_info, "suite_guid")?;
        let tool_settings = required_section(ini, "TOOL_SETTINGS")?;
        let info = required_section(ini, "FILE_INFO")?;
        let other = required_section(ini, "OTHER_FILES")?;
        let files = get_file_names(&info);
        let files = match mark_all(files, &other, Mark::Other) {
            Ok(f) => f,
            Err(k) => return Err(McpError::UnknownFileKey(k)),
        };
        let generated = required_section(ini, "GENERATED_FILES")?;
        let files = match mark_all(files, &generated, Mark::Generated) {
            Ok(f) => f,
            Err(k) => return Err(McpError::UnknownFileKey(k)),
        };
        let files = match section_entries(ini, "FILE_SUBFOLDERS") {
            Some(sub) => {
                proof {
                    lemma_subfolders_never_fail(file_views(files@), pair_views(sub@));
                }
                match mark_all(files, &sub, Mark::Subfolder) {
                    Ok(f) => f,
                    Err(k) => return Err(McpError::UnknownFileKey(k)),
                }
            },
            None => files,
        };
        Ok(MPLABProjectConfig { file_version, device, files, suite_guid, tool_settings })
    }

    /// As `from_ini`, with the server's error for a malformed descriptor.
    pub fn from_ini_to_lsp_result(ini: &ini::Ini) -> (r: Result<Self, LsError>)
        ensures
            match config_of(ini_sections(*ini)) {
                Ok(c) => r matches Ok(x) && x@ == c,
                Err(_) => r == Err::<Self, LsError>(LsError::McpParse),
            },
    {
        match MPLABProjectConfig::from_ini(ini) {
            Ok(c) => Ok(c),
            Err(_) => Err(LsError::McpParse),
        }
    }
}

} // verus!
