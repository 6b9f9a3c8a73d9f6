//! What to search for, and where.

use vstd::prelude::*;

use crate::files::FileLen;

verus! {

/// The settings of a search.
#[derive(Clone, Copy, Debug, PartialEq, Eq, Structural)]
pub struct Config {
    /// Report groups of more than this many files.
    pub rf_over: Option<usize>,
    /// Report groups of less than this many files.
    pub rf_under: Option<usize>,
    /// Report only files that have no copy.
    pub unique: bool,
    /// Treat the names of one file as copies of each other.
    pub hard_links: bool,
    /// Leave out files that are shorter than this.
    pub min_size: FileLen,
    /// Leave out files that are longer than this.
    pub max_size: Option<FileLen>,
    /// Descend into directories.
    pub recursive: bool,
    /// Descend at most this far.
    pub depth: Option<usize>,
    /// Leave out hidden files and directories.
    pub skip_hidden: bool,
    /// Follow symbolic links.
    pub follow_links: bool,
}

/// How a directory tree is walked.
#[derive(Clone, Copy, Debug, PartialEq, Eq, Structural)]
pub struct WalkOptions {
    pub recursive: bool,
    pub depth: usize,
    pub skip_hidden: bool,
    pub follow_links: bool,
}

impl Default for Config {
    /// A search for files of any length that have a copy.
    fn default() -> (config: Config)
        ensures
            config == (Config {
                rf_over: None,
                rf_under: None,
                unique: false,
                hard_links: false,
                min_size: FileLen(0),
                max_size: None,
                recursive: false,
                depth: None,
                skip_hidden: false,
                follow_links: false,
            }),
    {
        Config {
            rf_over: None,
            rf_under: None,
            unique: false,
            hard_links: false,
            min_size: FileLen(0),
            max_size: None,
            recursive: false,
            depth: None,
            skip_hidden: false,
            follow_links: false,
        }
    }
}

impl Config {
    /// Groups are reported if they have more files than this.
    pub open spec fn over(self) -> usize {
        match self.rf_over {
            Some(n) => n,
            None => if self.unique || self.rf_under is Some {
                0
            } else {
                1
            },
        }
    }

    /// Groups are reported if they have fewer files than this.
    pub open spec fn under(self) -> usize {
        if self.unique {
            2
        } else {
            match self.rf_under {
                Some(n) => n,
                None => usize::MAX,
            }
        }
    }

    /// Whether files of this length are searched.
    pub open spec fn selects(self, len: FileLen) -> bool {
        &&& self.min_size.0 <= len.0
        &&& self.max_size matches Some(max) ==> len.0 <= max.0
    }

    /// How the directory tree is walked.
    pub open spec fn walk(self) -> WalkOptions {
        WalkOptions {
            recursive: self.recursive,
            depth: match self.depth {
                Some(depth) => depth,
                None => usize::MAX,
            },
            skip_hidden: self.skip_hidden,
            follow_links: self.follow_links,
        }
    }

    /// What the reported files are called.
    pub open spec fn search_name(self) -> Seq<char> {
        if self.unique {
            "unique"@
        } else if self.rf_under is Some {
            "under-replicated"@
        } else {
            "redundant"@
        }
    }

    /// The number of copies that a reported group has more than. Unless it is set, a search for
    /// duplicates passes over single files, and a search for unique or under-replicated files
    /// does not.
    pub fn rf_over(&self) -> (n: usize)
        ensures
            n == self.over(),
    {
        match self.rf_over {
            Some(n) => n,
            None => if self.unique || self.rf_under.is_some() {
                0
            } else {
                1
            },
        }
    }

    /// The number of copies that a reported group has less than: two in a search for unique files,
    /// and no bound unless one is set.
    pub fn rf_under(&self) -> (n: usize)
        ensures
            n == self.under(),
    {
        if self.unique {
            2
        } else {
            match self.rf_under {
                Some(n) => n,
                None => usize::MAX,
            }
        }
    }

    /// Whether files of length `len` are searched.
    pub fn selects_len(&self, len: FileLen) -> (selected: bool)
        ensures
            selected == self.selects(len),
    {
        let max: u64 = match self.max_size {
            Some(max) => max.0,
            None => u64::MAX,
        };
        len.0 >= self.min_size.0 && len.0 <= max
    }

    /// How the directory tree is walked: to any depth unless one is set.
    pub fn walk_options(&self) -> (options: WalkOptions)
        ensures
            options == self.walk(),
            options.recursive == self.recursive,
            options.depth == (match self.depth {
                Some(depth) => depth,
                None => usize::MAX,
            }),
            options.skip_hidden == self.skip_hidden,
            options.follow_links == self.follow_links,
    {
        WalkOptions {
            recursive: self.recursive,
            depth: self.depth.unwrap_or(usize::MAX),
            skip_hidden: self.skip_hidden,
            follow_links: self.follow_links,
        }
    }

    /// What the reported files are called.
    pub fn search_type(&self) -> (name: &'static str)
        ensures
            name@ == self.search_name(),
            name@ == (if self.unique {
                "unique"@
            } else if self.rf_under is Some {
                "under-replicated"@
            } else {
                "redundant"@
            }),
    {
        if self.unique {
            "unique"
        } else if self.rf_under.is_some() {
            "under-replicated"
        } else {
            "redundant"
        }
    }
}

/// A lower limit that is set is the limit. Where none is set, a search for duplicates passes over
/// single files, and a search for unique or under-replicated files does not. An upper limit that is
/// set is the limit, unless only unique files are wanted: these are alone. No other setting
/// matters.
pub proof fn limits_follow_the_settings(config: Config)
    ensures
        config.rf_over matches Some(n) ==> config.over() == n,
        config.rf_over is None && (config.unique || config.rf_under is Some) ==> config.over() == 0,
        config.rf_over is None && !config.unique && config.rf_under is None ==> config.over() == 1,
        config.unique ==> config.under() == 2,
        !config.unique ==> (config.rf_under matches Some(n) ==> config.under() == n),
        !config.unique && config.rf_under is None ==> config.under() == usize::MAX,
{
}

/// Files are searched if they are neither shorter than the least nor longer than the greatest
/// length that is set, whatever the other settings.
pub proof fn lengths_follow_the_settings(config: Config, len: FileLen)
    ensures
        config.selects(len) ==> config.min_size.0 <= len.0,
        config.selects(len) ==> (config.max_size matches Some(max) ==> len.0 <= max.0),
        config.min_size.0 <= len.0 && (config.max_size matches Some(max) ==> len.0 <= max.0)
            ==> config.selects(len),
{
}

/// A tree is walked as the settings say, each of them for itself, and to any depth unless one is
/// set.
pub proof fn walk_follows_the_settings(config: Config)
    ensures
        config.walk().recursive == config.recursive,
        config.walk().skip_hidden == config.skip_hidden,
        config.walk().follow_links == config.follow_links,
        config.depth matches Some(depth) ==> config.walk().depth == depth,
        config.depth is None ==> config.walk().depth == usize::MAX,
{
}

/// Files are called unique if only these are wanted, and else under-replicated if the number of
/// copies has an upper limit, and redundant if it has none, whatever the other settings.
pub proof fn name_follows_the_settings(config: Config)
    ensures
        config.unique ==> config.search_name() == "unique"@,
        !config.unique && config.rf_under is Some ==> config.search_name() == "under-replicated"@,
        !config.unique && config.rf_under is None ==> config.search_name() == "redundant"@,
{
}

} // verus!
