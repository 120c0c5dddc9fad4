//! The settings that are kept beside the workbook, and the workbook that is looked for by default.
use vstd::prelude::*;
use crate::text::{
    chars_of, has_prefix, has_suffix, is_before, join2, same_text, text_before, text_of, text_view,
};
use crate::DEFAULT_PREFIX;

verus! {

/// The value of a setting: a text, or anything else as it is written.
pub enum Setting {
    Text(String),
    Other(String),
}

/// The value of a setting by its text.
pub ghost enum SettingVal {
    Text(Seq<char>),
    Other(Seq<char>),
}

impl View for Setting {
    type V = SettingVal;

    open spec fn view(&self) -> SettingVal {
        match self {
            Setting::Text(t) => SettingVal::Text(t@),
            Setting::Other(t) => SettingVal::Other(t@),
        }
    }
}

/// The settings: names and values. Of several values under one name the last one counts.
pub struct Config {
    pub items: Vec<(String, Setting)>,
}

/// The settings that pairs make up when they are put in one behind the other.
pub open spec fn settings(items: Seq<(String, Setting)>) -> Map<Seq<char>, SettingVal>
    decreases items.len(),
{
    if items.len() == 0 {
        Map::empty()
    } else {
        settings(items.drop_last()).insert(items.last().0@, items.last().1@)
    }
}

impl View for Config {
    type V = Map<Seq<char>, SettingVal>;

    open spec fn view(&self) -> Map<Seq<char>, SettingVal> {
        settings(self.items@)
    }
}

/// The text under a name.
pub open spec fn text_setting(m: Map<Seq<char>, SettingVal>, key: Seq<char>) -> Option<Seq<char>> {
    if m.contains_key(key) {
        match m[key] {
            SettingVal::Text(t) => Some(t),
            SettingVal::Other(_) => None,
        }
    } else {
        None
    }
}

/// What the paths below a folder start with.
pub open spec fn folder_prefix(dir: Seq<char>) -> Seq<char> {
    if dir.len() == 0 || dir.last() == '/' {
        dir
    } else {
        dir + "/"@
    }
}

/// A path as it is noted: the rest behind the folder where it lies below the folder, and otherwise
/// the path itself.
pub open spec fn path_below(dir: Seq<char>, path: Seq<char>) -> Seq<char> {
    if path == dir {
        Seq::empty()
    } else if folder_prefix(dir).is_prefix_of(path) {
        path.skip(folder_prefix(dir).len() as int)
    } else {
        path
    }
}

/// A path as it is noted, with slashes between the folders: relative to the program's folder where
/// it lies below that folder.
pub fn config_path(app_dir: &str, path: &str) -> (r: String)
    ensures
        r@ == path_below(app_dir@, path@),
{
    if same_text(path, app_dir) {
        return String::new();
    }
    let d = chars_of(app_dir);
    proof {
        reveal_strlit("/");
    }
    let prefix = if d.len() == 0 || d[d.len() - 1] == '/' {
        String::from_str(app_dir)
    } else {
        join2(app_dir, "/")
    };
    assert(prefix@ == folder_prefix(app_dir@));
    if has_prefix(path, prefix.as_str()) {
        let c = chars_of(path);
        let from: usize = chars_of(prefix.as_str()).len();
        let r = text_of(&c, from, c.len());
        assert(r@ =~= path@.skip(from as int));
        r
    } else {
        String::from_str(path)
    }
}

impl Config {
    /// Puts a text under a name, in place of what was there; all other settings stay.
    fn set_text(&mut self, key: &str, value: &str)
        ensures
            final(self)@ == old(self)@.insert(key@, SettingVal::Text(value@)),
    {
        let ghost before = self.items@;
        self.items.push((String::from_str(key), Setting::Text(String::from_str(value))));
        assert(self.items@.drop_last() =~= before);
    }

    /// The text under a name.
    fn get_text(&self, key: &str) -> (r: Option<String>)
        ensures
            text_view(r) == text_setting(self@, key@),
    {
        let mut i: usize = self.items.len();
        assert(self.items@.take(i as int) =~= self.items@);
        while i > 0
            invariant
                i <= self.items@.len(),
                text_setting(self@, key@) == text_setting(
                    settings(self.items@.take(i as int)),
                    key@,
                ),
            decreases i,
        {
            assert(self.items@.take(i as int).drop_last() =~= self.items@.take(i - 1));
            if same_text(self.items[i - 1].0.as_str(), key) {
                return match &self.items[i - 1].1 {
                    Setting::Text(t) => Some(t.clone()),
                    Setting::Other(_) => None,
                };
            }
            i = i - 1;
        }
        None
    }

    /// The workbook that was chosen last.
    pub fn read_config(&self) -> (r: Option<String>)
        ensures
            text_view(r) == text_setting(self@, "excel_path"@),
    {
        self.get_text("excel_path")
    }

    /// Notes the workbook that was chosen, by its path below the program's folder where it lies
    /// there.
    pub fn save_config(&mut self, app_dir: &str, excel_path: &str)
        ensures
            final(self)@ == old(self)@.insert(
                "excel_path"@,
                SettingVal::Text(path_below(app_dir@, excel_path@)),
            ),
    {
        let path = config_path(app_dir, excel_path);
        self.set_text("excel_path", path.as_str())
    }

    /// The name of the studio; an empty text where it was passed over.
    pub fn read_store_name(&self) -> (r: Option<String>)
        ensures
            text_view(r) == text_setting(self@, "store_name"@),
    {
        self.get_text("store_name")
    }

    /// Notes the name of the studio.
    pub fn write_store_name(&mut self, name: &str)
        ensures
            final(self)@ == old(self)@.insert("store_name"@, SettingVal::Text(name@)),
    {
        self.set_text("store_name", name)
    }
}

/// The name of the studio that was noted is read back, and an empty one counts as noted.
pub proof fn law_store_name_read_back(m: Map<Seq<char>, SettingVal>, name: Seq<char>)
    ensures
        text_setting(m.insert("store_name"@, SettingVal::Text(name)), "store_name"@) == Some(name),
{
}

/// A path below the folder is noted by the rest of it, so that it is found again where the folder
/// has moved; any other path is noted as it is.
pub proof fn law_path_moves_with_folder(dir: Seq<char>, rest: Seq<char>, other: Seq<char>)
    ensures
        dir.len() > 0 && dir.last() != '/' ==> path_below(dir, dir + "/"@ + rest) == rest,
        other != dir && !folder_prefix(dir).is_prefix_of(other) ==> path_below(dir, other) == other,
{
    reveal_strlit("/");
    let whole = dir + "/"@ + rest;
    assert(whole.len() > dir.len());
    if dir.len() > 0 && dir.last() != '/' {
        assert(whole.subrange(0, dir.len() as int + 1) =~= dir + "/"@);
        assert(whole.skip(dir.len() as int + 1) =~= rest);
    }
}

/// Noting a workbook keeps the name of the studio, and noting a name keeps the workbook.
pub proof fn law_settings_are_kept(
    m: Map<Seq<char>, SettingVal>,
    path: Seq<char>,
    name: Seq<char>,
)
    ensures
        text_setting(m.insert("excel_path"@, SettingVal::Text(path)), "store_name"@)
            == text_setting(m, "store_name"@),
        text_setting(m.insert("store_name"@, SettingVal::Text(name)), "excel_path"@)
            == text_setting(m, "excel_path"@),
{
    reveal_strlit("excel_path");
    reveal_strlit("store_name");
    assert("excel_path"@[0] != "store_name"@[0]);
}

// ------------------------------------------------------------- default workbook
/// Whether a file can be the default workbook.
pub open spec fn is_default_name(name: Seq<char>) -> bool {
    DEFAULT_PREFIX@.is_prefix_of(name) && (".xlsx"@.is_suffix_of(name) || ".xlsm"@.is_suffix_of(
        name,
    ))
}

/// Of the first `n` names the one that can be the default workbook and stands first in the order of
/// texts.
pub open spec fn first_default(names: Seq<String>, n: int) -> Option<Seq<char>>
    decreases n,
{
    if n <= 0 {
        None
    } else {
        let before = first_default(names, n - 1);
        let name = names[n - 1]@;
        if !is_default_name(name) {
            before
        } else {
            match before {
                Some(b) => if text_before(name, b) {
                    Some(name)
                } else {
                    before
                },
                None => Some(name),
            }
        }
    }
}

/// The default workbook among the names of the files: the one that is called like the prefix, or the
/// first that starts with it.
pub open spec fn default_name(names: Seq<String>) -> Option<Seq<char>> {
    let exact = DEFAULT_PREFIX@ + ".xlsx"@;
    if exists|i: int| 0 <= i < names.len() && (#[trigger] names[i])@ == exact {
        Some(exact)
    } else {
        first_default(names, names.len() as int)
    }
}

/// Whether a file can be the default workbook.
fn can_be_default(name: &str) -> (r: bool)
    ensures
        r == is_default_name(name@),
{
    has_prefix(name, DEFAULT_PREFIX) && (has_suffix(name, ".xlsx") || has_suffix(name, ".xlsm"))
}

/// The default workbook among the names of the files.
pub fn find_default_excel(names: &Vec<String>) -> (r: Option<String>)
    ensures
        text_view(r) == default_name(names@),
{
    let exact = join2(DEFAULT_PREFIX, ".xlsx");
    let mut best: Option<String> = None;
    let mut i: usize = 0;
    while i < names.len()
        invariant
            i <= names@.len(),
            exact@ == DEFAULT_PREFIX@ + ".xlsx"@,
            forall|k: int| 0 <= k < i ==> (#[trigger] names@[k])@ != exact@,
            text_view(best) == first_default(names@, i as int),
        decreases names@.len() - i,
    {
        if same_text(names[i].as_str(), exact.as_str()) {
            assert(names@[i as int]@ == exact@);
            return Some(exact);
        }
        if can_be_default(names[i].as_str()) {
            let better = match &best {
                Some(b) => is_before(names[i].as_str(), b.as_str()),
                None => true,
            };
            if better {
                best = Some(names[i].clone());
            }
        }
        i = i + 1;
    }
    best
}

} // verus!
