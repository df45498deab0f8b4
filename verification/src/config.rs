//! Static configuration: sources, the library directory, and targets.

use vstd::prelude::*;

verus! {

/// A configured root directory that is scanned for skill bundles.
///
/// The path need not exist: a missing or unreadable source contributes zero
/// skills to discovery, never an error.
#[derive(Clone)]
pub struct Source {
    pub path: String,
}

/// Ghost image of a [`Source`].
pub struct SourceView {
    pub path: Seq<char>,
}

impl View for Source {
    type V = SourceView;

    open spec fn view(&self) -> SourceView {
        SourceView { path: self.path@ }
    }
}

impl DeepView for Source {
    type V = SourceView;

    open spec fn deep_view(&self) -> SourceView {
        self@
    }
}

/// A named integration destination. Propagation skips disabled targets
/// entirely: their directories are never inspected or written.
#[derive(Clone)]
pub struct Target {
    pub name: String,
    pub enabled: bool,
    pub path: String,
}

/// Ghost image of a [`Target`].
pub struct TargetView {
    pub name: Seq<char>,
    pub enabled: bool,
    pub path: Seq<char>,
}

impl View for Target {
    type V = TargetView;

    open spec fn view(&self) -> TargetView {
        TargetView { name: self.name@, enabled: self.enabled, path: self.path@ }
    }
}

impl DeepView for Target {
    type V = TargetView;

    open spec fn deep_view(&self) -> TargetView {
        self@
    }
}

/// Aggregate configuration: the consolidated library directory, the ordered
/// sources (order matters for collision tie-breaking), and the targets.
#[derive(Clone)]
pub struct Config {
    pub library_dir: String,
    pub sources: Vec<Source>,
    pub targets: Vec<Target>,
}

/// Ghost image of a [`Config`].
pub struct ConfigView {
    pub library_dir: Seq<char>,
    pub sources: Seq<SourceView>,
    pub targets: Seq<TargetView>,
}

impl View for Config {
    type V = ConfigView;

    open spec fn view(&self) -> ConfigView {
        ConfigView {
            library_dir: self.library_dir@,
            sources: self.sources.deep_view(),
            targets: self.targets.deep_view(),
        }
    }
}

} // verus!
