//! Scrolling of tables taller than their viewport.

use vstd::prelude::*;

verus! {

/// The direction of the last scroll.
#[derive(Clone, Copy, Debug, PartialEq, Eq, Structural)]
pub enum ScrollDirection {
    /// Towards the top.
    Up,
    /// Towards the bottom.
    Down,
}

/// The first row to show of a table whose viewport holds `num_rows` rows,
/// given the first row shown before and the selected row. Scrolling down
/// keeps the start until the selection would leave the viewport, then moves
/// it so that the selection is the last row shown; scrolling up moves the
/// start up by one (not below 0) when the selection is the row just above
/// it. The start kept for the next call is updated to the result.
pub fn get_start_position(
    num_rows: i64,
    scroll_direction: &ScrollDirection,
    previous_position: &mut i64,
    currently_selected_position: &mut i64,
) -> (r: i64)
    requires
        *scroll_direction == ScrollDirection::Up ==> *old(previous_position) > i64::MIN,
        *scroll_direction == ScrollDirection::Down ==> i64::MIN <= *old(currently_selected_position) - num_rows
            < i64::MAX,
    ensures
        *final(currently_selected_position) == *old(currently_selected_position),
        ({
            let selected = *old(currently_selected_position);
            let prev = *old(previous_position);
            match *scroll_direction {
                ScrollDirection::Down => if selected < num_rows {
                    r == 0 && *final(previous_position) == prev
                } else if selected - num_rows < prev {
                    r == prev && *final(previous_position) == prev
                } else {
                    r == selected - num_rows + 1 && *final(previous_position) == r
                },
                ScrollDirection::Up => if selected == prev - 1 {
                    r == (if prev > 0 {
                        prev - 1
                    } else {
                        0
                    }) && *final(previous_position) == r
                } else {
                    r == prev && *final(previous_position) == prev
                },
            }
        }),
{
    match scroll_direction {
        ScrollDirection::Down => {
            if *currently_selected_position < num_rows {
                0
            } else if *currently_selected_position - num_rows < *previous_position {
                *previous_position
            } else {
                *previous_position = *currently_selected_position - num_rows + 1;
                *previous_position
            }
        },
        ScrollDirection::Up => {
            if *currently_selected_position == *previous_position - 1 {
                *previous_position = if *previous_position > 0 {
                    *previous_position - 1
                } else {
                    0
                };
                *previous_position
            } else {
                *previous_position
            }
        },
    }
}

} // verus!
