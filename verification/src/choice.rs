//! The drop-down choice input: its options, selection and builder.

use vstd::prelude::*;
use crate::pango::{populated, CachedPango, PangoTheme};

verus! {

/// One entry of a choice input.
pub struct ChoiceOption {
    pub value: String,
    pub label: CachedPango,
}

/// A drop-down choice input.
pub struct Choice {
    pub scope: Option<&'static str>,
    pub options: Vec<ChoiceOption>,
    pub placeholder: CachedPango,
    pub selected: Option<usize>,
    pub is_opened: bool,
}

/// The selection after moving down among `n` options: the first option
/// when nothing was selected, else the next one, stopping at the last.
pub open spec fn next_selection(sel: Option<usize>, n: nat) -> Option<usize> {
    if n == 0 {
        None
    } else {
        match sel {
            None => Some(0usize),
            Some(i) => Some(
                if i + 1 <= n - 1 {
                    (i + 1) as usize
                } else {
                    (n - 1) as usize
                },
            ),
        }
    }
}

/// The selection after moving up among `n` options: the previous one, or
/// nothing when the first (or nothing) was selected.
pub open spec fn prev_selection(sel: Option<usize>, n: nat) -> Option<usize> {
    if n == 0 {
        None
    } else {
        match sel {
            Some(i) => if i > 0 {
                Some((i - 1) as usize)
            } else {
                None
            },
            None => None,
        }
    }
}

impl Choice {
    /// A builder for a choice input.
    pub fn builder() -> (res: ChoiceInputBuilder)
        ensures
            res.scope_of() is None,
            res.placeholder_of()@.source.len() == 0,
            res.placeholder_of()@.text.len() == 0,
            res.options_of() is None,
    {
        ChoiceInputBuilder::new()
    }

    /// Moves the selection down by one, saturating at the last option.
    pub fn saturating_next(&mut self)
        requires
            old(self).selected != Some(usize::MAX),
        ensures
            final(self).selected == next_selection(old(self).selected, old(self).options@.len()),
            final(self).options == old(self).options,
            final(self).placeholder == old(self).placeholder,
            final(self).scope == old(self).scope,
            final(self).is_opened == old(self).is_opened,
    {
        if self.options.len() == 0 {
            self.selected = None;
            return;
        }
        let last = self.options.len() - 1;
        self.selected = Some(
            match self.selected {
                None => 0,
                Some(idx) => if idx + 1 <= last {
                    idx + 1
                } else {
                    last
                },
            },
        );
    }

    /// Moves the selection up by one; above the first option nothing is
    /// selected.
    pub fn saturating_prev(&mut self)
        ensures
            final(self).selected == prev_selection(old(self).selected, old(self).options@.len()),
            final(self).options == old(self).options,
            final(self).placeholder == old(self).placeholder,
            final(self).scope == old(self).scope,
            final(self).is_opened == old(self).is_opened,
    {
        if self.options.len() == 0 {
            self.selected = None;
            return;
        }
        self.selected = match self.selected {
            Some(idx) => if idx > 0 {
                Some(idx - 1)
            } else {
                None
            },
            None => None,
        };
    }
}

impl Choice {
    /// The label the closed input shows: the selected option's, or the
    /// placeholder when nothing (or no existing option) is selected.
    pub fn shown_label(&self) -> (r: &CachedPango)
        ensures
            match self.selected {
                Some(i) => if i < self.options@.len() {
                    *r == self.options@[i as int].label
                } else {
                    *r == self.placeholder
                },
                None => *r == self.placeholder,
            },
    {
        match self.selected {
            Some(i) => if i < self.options.len() {
                &self.options[i].label
            } else {
                &self.placeholder
            },
            None => &self.placeholder,
        }
    }

    /// The arrow next to the label: up while an option is selected, down
    /// otherwise.
    pub fn chevron(&self) -> (r: &'static str)
        ensures
            self.selected is Some ==> r@ == "\u{25b4}"@,
            self.selected is None ==> r@ == "\u{25be}"@,
    {
        if self.selected.is_some() {
            "\u{25b4}"
        } else {
            "\u{25be}"
        }
    }

    /// Renders every option label and the placeholder that has not been
    /// rendered yet, so that their widths can be measured.
    pub fn populate_labels(&mut self, theme: &PangoTheme)
        ensures
            final(self).options@.len() == old(self).options@.len(),
            forall|i: int|
                0 <= i < final(self).options@.len() ==> #[trigger] final(self).options@[i].label@
                    == populated(old(self).options@[i].label@, *theme),
            forall|i: int|
                0 <= i < final(self).options@.len() ==> #[trigger] final(self).options@[i].value
                    == old(self).options@[i].value,
            final(self).placeholder@ == populated(old(self).placeholder@, *theme),
            final(self).selected == old(self).selected,
            final(self).scope == old(self).scope,
            final(self).is_opened == old(self).is_opened,
    {
        self.placeholder.populate(theme);
        let n = self.options.len();
        let mut i: usize = 0;
        while i < n
            invariant
                n == self.options@.len(),
                n == old(self).options@.len(),
                i <= n,
                forall|k: int|
                    i <= k < n ==> #[trigger] self.options@[k] == old(self).options@[k],
                forall|k: int|
                    0 <= k < i ==> #[trigger] self.options@[k].label@ == populated(
                        old(self).options@[k].label@,
                        *theme,
                    ),
                forall|k: int|
                    0 <= k < i ==> #[trigger] self.options@[k].value == old(self).options@[k].value,
                self.placeholder@ == populated(old(self).placeholder@, *theme),
                self.selected == old(self).selected,
                self.scope == old(self).scope,
                self.is_opened == old(self).is_opened,
            decreases n - i,
        {
            self.options[i].label.populate(theme);
            i = i + 1;
        }
    }
}

/// Moving down and then up returns to a selection that had a next option.
pub proof fn law_next_then_prev(i: usize, n: nat)
    requires
        i + 1 < n <= usize::MAX,
    ensures
        prev_selection(next_selection(Some(i), n), n) == Some(i),
{
}

/// Moving up and then down returns to any selection but the first.
pub proof fn law_prev_then_next(i: usize, n: nat)
    requires
        0 < i < n,
    ensures
        next_selection(prev_selection(Some(i), n), n) == Some(i),
{
}

/// Moving keeps a valid selection valid: it is `None` or an index of an option.
pub proof fn law_selection_stays_valid(sel: Option<usize>, n: nat)
    requires
        match sel {
            Some(i) => i < n,
            None => true,
        },
    ensures
        match next_selection(sel, n) {
            Some(i) => i < n,
            None => true,
        },
        match prev_selection(sel, n) {
            Some(i) => i < n,
            None => true,
        },
{
}

/// At the last option, moving down stays there.
pub proof fn law_next_saturates(n: nat)
    requires
        0 < n <= usize::MAX,
    ensures
        next_selection(Some((n - 1) as usize), n) == Some((n - 1) as usize),
{
}

/// Builds a `Choice`.
pub struct ChoiceInputBuilder {
    scope: Option<&'static str>,
    placeholder: CachedPango,
    options: Option<Vec<ChoiceOption>>,
}

impl ChoiceInputBuilder {
    /// The scope that will be set.
    pub closed spec fn scope_of(&self) -> Option<&'static str> {
        self.scope
    }

    /// The placeholder that will be set.
    pub closed spec fn placeholder_of(&self) -> CachedPango {
        self.placeholder
    }

    /// The options that will be set.
    pub closed spec fn options_of(&self) -> Option<Vec<ChoiceOption>> {
        self.options
    }

    /// A builder with no scope, an empty placeholder and no options.
    pub fn new() -> (res: ChoiceInputBuilder)
        ensures
            res.scope_of() is None,
            res.placeholder_of()@.source.len() == 0,
            res.placeholder_of()@.text.len() == 0,
            res.options_of() is None,
    {
        ChoiceInputBuilder {
            scope: None,
            placeholder: CachedPango::new(String::new()),
            options: None,
        }
    }

    /// Sets the key-binding scope.
    pub fn scope(self, scope: &'static str) -> (res: ChoiceInputBuilder)
        ensures
            res.scope_of() == Some(scope),
            res.placeholder_of() == self.placeholder_of(),
            res.options_of() == self.options_of(),
    {
        let mut b = self;
        b.scope = Some(scope);
        b
    }

    /// Sets the text shown while nothing is selected.
    pub fn placeholder(self, placeholder: CachedPango) -> (res: ChoiceInputBuilder)
        ensures
            res.scope_of() == self.scope_of(),
            res.placeholder_of() == placeholder,
            res.options_of() == self.options_of(),
    {
        let mut b = self;
        b.placeholder = placeholder;
        b
    }

    /// Sets the options.
    pub fn options(self, options: Vec<ChoiceOption>) -> (res: ChoiceInputBuilder)
        ensures
            res.scope_of() == self.scope_of(),
            res.placeholder_of() == self.placeholder_of(),
            res.options_of() == Some(options),
    {
        let mut b = self;
        b.options = Some(options);
        b
    }

    /// The choice input: closed, nothing selected, no options unless set.
    pub fn build(self) -> (res: Choice)
        ensures
            res.scope == self.scope_of(),
            res.placeholder == self.placeholder_of(),
            res.options@ == match self.options_of() {
                Some(o) => o@,
                None => Seq::<ChoiceOption>::empty(),
            },
            res.selected is None,
            !res.is_opened,
    {
        let options = match self.options {
            Some(o) => o,
            None => Vec::new(),
        };
        Choice {
            scope: self.scope,
            options,
            placeholder: self.placeholder,
            selected: None,
            is_opened: false,
        }
    }
}

} // verus!
