//! Icons and the added/deleted line counter shown next to changed files.
use vstd::prelude::*;
use crate::text::{decimal, push_decimal, string_from_chars};

verus! {

#[derive(Clone, Copy, Debug, PartialEq, Eq, Hash, Structural)]
pub enum IconName {
    Check,
    ChevronDown,
    ChevronRight,
    CircleDot,
    ExternalLink,
    GitPullRequest,
    HelpCircle,
    Minus,
    PanelLeft,
    PanelRight,
    Plus,
    Settings,
    X,
}

impl IconName {
    /// The asset path of the icon's SVG file.
    pub open spec fn spec_path(self) -> Seq<char> {
        match self {
            IconName::Check => "icons/check.svg"@,
            IconName::ChevronDown => "icons/chevron_down.svg"@,
            IconName::ChevronRight => "icons/chevron_right.svg"@,
            IconName::CircleDot => "icons/circle_dot.svg"@,
            IconName::ExternalLink => "icons/external_link.svg"@,
            IconName::GitPullRequest => "icons/git_pull_request.svg"@,
            IconName::HelpCircle => "icons/help_circle.svg"@,
            IconName::Minus => "icons/minus.svg"@,
            IconName::PanelLeft => "icons/panel_left.svg"@,
            IconName::PanelRight => "icons/panel_right.svg"@,
            IconName::Plus => "icons/plus.svg"@,
            IconName::Settings => "icons/settings.svg"@,
            IconName::X => "icons/x.svg"@,
        }
    }

    /// The asset path of the icon's SVG file.
    pub fn path(self) -> (r: &'static str)
        ensures
            r@ == self.spec_path(),
    {
        match self {
            IconName::Check => "icons/check.svg",
            IconName::ChevronDown => "icons/chevron_down.svg",
            IconName::ChevronRight => "icons/chevron_right.svg",
            IconName::CircleDot => "icons/circle_dot.svg",
            IconName::ExternalLink => "icons/external_link.svg",
            IconName::GitPullRequest => "icons/git_pull_request.svg",
            IconName::HelpCircle => "icons/help_circle.svg",
            IconName::Minus => "icons/minus.svg",
            IconName::PanelLeft => "icons/panel_left.svg",
            IconName::PanelRight => "icons/panel_right.svg",
            IconName::Plus => "icons/plus.svg",
            IconName::Settings => "icons/settings.svg",
            IconName::X => "icons/x.svg",
        }
    }
}

/// The lines added and deleted in a file, as a badge shows them.
#[derive(Clone, Copy, Debug, PartialEq, Eq, Structural)]
pub struct DiffStat {
    pub additions: Option<u32>,
    pub deletions: Option<u32>,
}

impl DiffStat {
    /// A badge with no counts.
    pub fn new() -> (r: Self)
        ensures
            r.additions is None,
            r.deletions is None,
    {
        DiffStat { additions: None, deletions: None }
    }

    /// The badge with `n` added lines.
    pub fn additions(self, n: u32) -> (r: Self)
        ensures
            r == (DiffStat { additions: Some(n), ..self }),
    {
        DiffStat { additions: Some(n), ..self }
    }

    /// The badge with `n` deleted lines.
    pub fn deletions(self, n: u32) -> (r: Self)
        ensures
            r == (DiffStat { deletions: Some(n), ..self }),
    {
        DiffStat { deletions: Some(n), ..self }
    }

    /// The texts the badge shows: `+n` for known additions, `-n` for a
    /// known, non-zero number of deletions.
    pub fn labels(&self) -> (r: (Option<String>, Option<String>))
        ensures
            match self.additions {
                Some(a) => r.0 matches Some(s) && s@ == seq!['+'] + decimal(a as nat),
                None => r.0 is None,
            },
            match self.deletions {
                Some(d) => if d > 0 {
                    r.1 matches Some(s) && s@ == seq!['-'] + decimal(d as nat)
                } else {
                    r.1 is None
                },
                None => r.1 is None,
            },
    {
        let plus = match self.additions {
            Some(a) => {
                let mut v: Vec<char> = vec!['+'];
                push_decimal(&mut v, a as u64);
                Some(string_from_chars(v.as_slice()))
            },
            None => None,
        };
        let minus = match self.deletions {
            Some(d) => {
                if d > 0 {
                    let mut v: Vec<char> = vec!['-'];
                    push_decimal(&mut v, d as u64);
                    Some(string_from_chars(v.as_slice()))
                } else {
                    None
                }
            },
            None => None,
        };
        (plus, minus)
    }
}

impl Default for DiffStat {
    fn default() -> (r: Self)
        ensures
            r.additions is None,
            r.deletions is None,
    {
        DiffStat::new()
    }
}

} // verus!
