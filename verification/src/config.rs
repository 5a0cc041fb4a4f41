//! The application's configurable settings and the recent-projects list.
//! Reading and writing the configuration file is the platform layer's
//! business; this module holds the settings themselves and the paths they
//! live under.

use vstd::prelude::*;

use crate::pathutil::eq_bytes;

verus! {

/// Maximum number of recent projects kept in the configuration.
pub const MAX_RECENT_PROJECTS: usize = 10;

/// The application's configurable settings. Paths are byte strings.
pub struct AppConfig {
    /// UI theme setting: "light", "dark", or "system".
    pub theme: String,
    /// Auto-expand the first tree level when at most this many files were
    /// scanned.
    pub auto_expand_limit: usize,
    /// Maximum file size in bytes for previews and report contents; -1 for
    /// no limit.
    pub max_file_size_preview: i64,
    /// Whether the scanner includes hidden files and directories.
    pub show_hidden_files: bool,
    /// Default report format: "markdown", "html" or "text".
    pub export_format: String,
    /// Default setting for including scan statistics in reports.
    pub export_include_stats: bool,
    /// Default setting for including selected file contents in reports.
    pub export_include_contents: bool,
    /// Recently opened project directories, most recent first.
    pub recent_projects: Vec<Vec<u8>>,
}

/// The byte views of a path list.
pub open spec fn path_views(s: Seq<Vec<u8>>) -> Seq<Seq<u8>> {
    s.map_values(|v: Vec<u8>| v@)
}

/// The recent-projects list after adding `p` in front of the first `k` old
/// entries: `p` leads, duplicates of it are dropped, and the list stops at
/// the maximum.
pub open spec fn recent_after(old_list: Seq<Seq<u8>>, p: Seq<u8>, k: int) -> Seq<Seq<u8>>
    decreases k,
{
    if k <= 0 {
        seq![p]
    } else {
        let r = recent_after(old_list, p, k - 1);
        if old_list[k - 1] == p || r.len() >= MAX_RECENT_PROJECTS as int {
            r
        } else {
            r.push(old_list[k - 1])
        }
    }
}

impl Default for AppConfig {
    /// The default configuration.
    fn default() -> (r: Self)
        ensures
            r.theme@ == "system"@,
            r.auto_expand_limit == 100,
            r.max_file_size_preview == 1048576,
            r.show_hidden_files == false,
            r.export_format@ == "markdown"@,
            r.export_include_stats == true,
            r.export_include_contents == true,
            r.recent_projects@.len() == 0,
    {
        AppConfig {
            theme: String::from_str("system"),
            auto_expand_limit: 100,
            max_file_size_preview: 1048576,
            show_hidden_files: false,
            export_format: String::from_str("markdown"),
            export_include_stats: true,
            export_include_contents: true,
            recent_projects: Vec::new(),
        }
    }
}

impl AppConfig {
    /// Puts an absolute project path in front of the recent-projects list,
    /// dropping any earlier entry for the same path and keeping at most the
    /// maximum number of entries. Resolving the path to an absolute one is
    /// the caller's business.
    pub fn add_recent_project(&mut self, path: Vec<u8>)
        ensures
            path_views(final(self).recent_projects@) == recent_after(
                path_views(old(self).recent_projects@),
                path@,
                old(self).recent_projects@.len() as int,
            ),
            final(self).theme == old(self).theme,
            final(self).auto_expand_limit == old(self).auto_expand_limit,
            final(self).max_file_size_preview == old(self).max_file_size_preview,
            final(self).show_hidden_files == old(self).show_hidden_files,
            final(self).export_format == old(self).export_format,
            final(self).export_include_stats == old(self).export_include_stats,
            final(self).export_include_contents == old(self).export_include_contents,
    {
        let ghost olds = path_views(self.recent_projects@);
        let ghost pv = path@;
        let mut old_list: Vec<Vec<u8>> = Vec::new();
        core::mem::swap(&mut old_list, &mut self.recent_projects);
        let mut fresh: Vec<Vec<u8>> = Vec::new();
        fresh.push(path);
        proof {
            assert(path_views(fresh@) =~= seq![pv]);
        }
        let mut k: usize = 0;
        while k < old_list.len()
            invariant
                k <= old_list@.len(),
                olds == path_views(old_list@),
                path_views(fresh@) == recent_after(olds, pv, k as int),
                fresh@.len() >= 1,
            decreases old_list@.len() - k,
        {
            let ghost f0 = path_views(fresh@);
            let is_dup = eq_bytes(old_list[k].as_slice(), fresh[0].as_slice());
            proof {
                assert(fresh@[0]@ == recent_after(olds, pv, k as int)[0]);
                assert(recent_after(olds, pv, k as int)[0] == pv) by {
                    lemma_recent_after_head(olds, pv, k as int);
                }
            }
            if !is_dup && fresh.len() < MAX_RECENT_PROJECTS {
                let entry = crate::pathutil::clone_bytes(&old_list[k]);
                fresh.push(entry);
                proof {
                    assert(path_views(fresh@) =~= f0.push(olds[k as int]));
                }
            } else {
                proof {
                    lemma_recent_after_len(olds, pv, k as int);
                }
            }
            k = k + 1;
        }
        self.recent_projects = fresh;
    }

    /// Clears the recent-projects list.
    pub fn clear_recent_projects(&mut self)
        ensures
            final(self).recent_projects@.len() == 0,
            final(self).theme == old(self).theme,
            final(self).auto_expand_limit == old(self).auto_expand_limit,
            final(self).max_file_size_preview == old(self).max_file_size_preview,
            final(self).show_hidden_files == old(self).show_hidden_files,
            final(self).export_format == old(self).export_format,
            final(self).export_include_stats == old(self).export_include_stats,
            final(self).export_include_contents == old(self).export_include_contents,
    {
        let mut fresh: Vec<Vec<u8>> = Vec::new();
        core::mem::swap(&mut fresh, &mut self.recent_projects);
    }
}

/// The first recent entry is always the fresh path.
proof fn lemma_recent_after_head(old_list: Seq<Seq<u8>>, p: Seq<u8>, k: int)
    ensures
        recent_after(old_list, p, k).len() >= 1,
        recent_after(old_list, p, k)[0] == p,
    decreases k,
{
    if k > 0 {
        lemma_recent_after_head(old_list, p, k - 1);
    }
}

/// The list never exceeds the maximum.
proof fn lemma_recent_after_len(old_list: Seq<Seq<u8>>, p: Seq<u8>, k: int)
    ensures
        recent_after(old_list, p, k).len() <= MAX_RECENT_PROJECTS as int,
    decreases k,
{
    if k > 0 {
        lemma_recent_after_len(old_list, p, k - 1);
    }
}

/// The application's configuration directory under the platform
/// configuration directory, when the platform reports one.
pub fn config_dir() -> (r: Option<Vec<u8>>)
    ensures
        match r {
            Some(d) => d@.len() >= 16 && d@.subrange(d@.len() - 16, d@.len() as int)
                == app_dir_suffix(),
            None => true,
        },
{
    match platform_config_dir() {
        None => None,
        Some(base) => {
            let mut d = base;
            let suffix = app_dir_suffix_exec();
            let mut k: usize = 0;
            let ghost base_view = d@;
            while k < suffix.len()
                invariant
                    k <= suffix@.len(),
                    suffix@ == app_dir_suffix(),
                    d@ =~= base_view + suffix@.subrange(0, k as int),
                decreases suffix@.len() - k,
            {
                d.push(suffix[k]);
                k = k + 1;
            }
            proof {
                assert(d@ =~= base_view + app_dir_suffix());
                assert(d@.subrange(d@.len() - 16, d@.len() as int) =~= app_dir_suffix());
            }
            Some(d)
        },
    }
}

/// The full path of the configuration file, when the platform reports a
/// configuration directory.
pub fn config_file() -> (r: Option<Vec<u8>>)
    ensures
        match r {
            Some(d) => d@.len() >= 12 && d@.subrange(d@.len() - 12, d@.len() as int)
                == config_file_suffix(),
            None => true,
        },
{
    match config_dir() {
        None => None,
        Some(base) => {
            let mut d = base;
            let suffix = config_file_suffix_exec();
            let mut k: usize = 0;
            let ghost base_view = d@;
            while k < suffix.len()
                invariant
                    k <= suffix@.len(),
                    suffix@ == config_file_suffix(),
                    d@ =~= base_view + suffix@.subrange(0, k as int),
                decreases suffix@.len() - k,
            {
                d.push(suffix[k]);
                k = k + 1;
            }
            proof {
                assert(d@ =~= base_view + config_file_suffix());
                assert(d@.subrange(d@.len() - 12, d@.len() as int) =~= config_file_suffix());
            }
            Some(d)
        },
    }
}

/// The application's directory name under the platform configuration
/// directory: `/codebase_viewer` as bytes.
pub open spec fn app_dir_suffix() -> Seq<u8> {
    seq![47u8, 99, 111, 100, 101, 98, 97, 115, 101, 95, 118, 105, 101, 119, 101, 114]
}

/// The configuration file name: `/config.json` as bytes.
pub open spec fn config_file_suffix() -> Seq<u8> {
    seq![47u8, 99, 111, 110, 102, 105, 103, 46, 106, 115, 111, 110]
}

/// `/codebase_viewer` as bytes.
fn app_dir_suffix_exec() -> (r: Vec<u8>)
    ensures
        r@ == app_dir_suffix(),
{
    let mut v: Vec<u8> = Vec::new();
    v.push(47u8);
    v.push(99);
    v.push(111);
    v.push(100);
    v.push(101);
    v.push(98);
    v.push(97);
    v.push(115);
    v.push(101);
    v.push(95);
    v.push(118);
    v.push(105);
    v.push(101);
    v.push(119);
    v.push(101);
    v.push(114);
    proof {
        assert(v@ =~= app_dir_suffix());
    }
    v
}

/// `/config.json` as bytes.
fn config_file_suffix_exec() -> (r: Vec<u8>)
    ensures
        r@ == config_file_suffix(),
{
    let mut v: Vec<u8> = Vec::new();
    v.push(47u8);
    v.push(99);
    v.push(111);
    v.push(110);
    v.push(102);
    v.push(105);
    v.push(103);
    v.push(46);
    v.push(106);
    v.push(115);
    v.push(111);
    v.push(110);
    proof {
        assert(v@ =~= config_file_suffix());
    }
    v
}

/// Relies on dirs_next::config_dir: the platform's configuration directory,
/// if it has one; the result depends on the environment, so nothing is
/// promised of its value.
#[verifier::external_body]
fn platform_config_dir() -> (r: Option<Vec<u8>>) {
    dirs_next::config_dir().map(|p| p.to_string_lossy().into_owned().into_bytes())
}

} // verus!
