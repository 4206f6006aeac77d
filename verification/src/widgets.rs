//! Small pieces of list-item state shared by the result widgets.

use vstd::prelude::*;
use crate::text::{dec_digits, int_text, push_char, push_decimal};

verus! {

/// Where a theme comes from.
#[derive(PartialEq, Eq, Structural, Clone, Copy, Debug)]
pub enum ThemeType {
    BuiltIn,
    Custom,
}

impl Default for ThemeType {
    fn default() -> (r: Self)
        ensures
            r == ThemeType::BuiltIn,
    {
        ThemeType::BuiltIn
    }
}

impl ThemeType {
    /// The caption shown under a theme's name.
    pub fn label(&self) -> (r: &'static str)
        ensures
            *self == ThemeType::Custom ==> r@ == "Custom Theme"@,
            *self == ThemeType::BuiltIn ==> r@ == "Built-in Theme"@,
    {
        match self {
            ThemeType::Custom => "Custom Theme",
            ThemeType::BuiltIn => "Built-in Theme",
        }
    }
}

/// Which item a widget shows and whether the user has selected it.
#[derive(Clone, Copy, Debug)]
pub struct Selection {
    /// The unique index of the item.
    pub data_idx: usize,
    /// Whether the item is selected.
    pub is_selected: bool,
}

impl Selection {
    pub fn new(data_idx: usize, is_selected: bool) -> (r: Self)
        ensures
            r.data_idx == data_idx,
            r.is_selected == is_selected,
    {
        Selection { data_idx, is_selected }
    }
}

/// How a process row names its process: the pid alone when the process
/// is its own application, else `parent > pid`.
pub open spec fn pid_label_text(pid: i32, ppid: i32) -> Seq<char> {
    if ppid == pid {
        int_text(pid as int)
    } else {
        int_text(ppid as int) + seq![' ', '>', ' '] + int_text(pid as int)
    }
}

fn push_int(out: &mut String, n: i32)
    ensures
        final(out)@ == old(out)@ + int_text(n as int),
{
    if n < 0 {
        let ghost before = out@;
        push_char(out, '-');
        let magnitude: u128 = (-(n as i64)) as u128;
        push_decimal(out, magnitude);
        assert(before.push('-') + crate::text::dec_digits(magnitude as nat) == before + int_text(n as int));
    } else {
        push_decimal(out, n as u128);
    }
}

/// The label of a process row; see `pid_label_text`.
pub fn pid_label(pid: i32, ppid: i32) -> (r: String)
    ensures
        r@ == pid_label_text(pid, ppid),
{
    let mut out = String::new();
    if ppid == pid {
        push_int(&mut out, pid);
    } else {
        push_int(&mut out, ppid);
        push_char(&mut out, ' ');
        push_char(&mut out, '>');
        push_char(&mut out, ' ');
        push_int(&mut out, pid);
    }
    out
}

/// `n` in decimal, with a leading `-` when it is negative.
pub fn int_string(n: i32) -> (r: String)
    ensures
        r@ == int_text(n as int),
{
    let mut out = String::new();
    push_int(&mut out, n);
    out
}

/// The numbers a process's sidebar lists: its parent pid, its pid and its
/// thread count, in decimal.
pub fn sidebar_numbers(pid: i32, ppid: i32, threads: u32) -> (r: (String, String, String))
    ensures
        r.0@ == int_text(ppid as int),
        r.1@ == int_text(pid as int),
        r.2@ == dec_digits(threads as nat),
{
    let mut t = String::new();
    push_decimal(&mut t, threads as u128);
    (int_string(ppid), int_string(pid), t)
}

/// How many seconds remain until the next full minute when the clock shows
/// `second` (0 to 59): the delay before the weather widget's clock
/// refreshes.
pub fn secs_until_next_minute(second: u32) -> (r: u64)
    requires
        second < 60,
    ensures
        r == 60 - second,
        1 <= r <= 60,
{
    60 - second as u64
}

} // verus!
