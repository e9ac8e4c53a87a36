//! Rules-and-state engine for a Klondike-style solitaire game.
//!
//! The library owns the card model, the four pile kinds (stock, discard,
//! foundation, tableau), the legality rules for moving cards between them,
//! and the pick-up/drag/drop state machine that turns pointer input into
//! validated pile-to-pile transfers.  Screen layout, rendering and event
//! capture are left to the caller, which consumes the visual state that the
//! piles expose.

use vstd::prelude::*;

pub mod card;
pub mod foundation;
pub mod game;
pub mod stock_discard;
pub mod tableau;
pub mod util;

verus! {

/// Width of a card's hit-box, in pixels.
pub const CARD_WIDTH: u32 = 125;
/// Height of a card's hit-box, in pixels.
pub const CARD_HEIGHT: u32 = 175;

/// Outer margin of the table layout.
pub const PADDING: i32 = 10;

/// Horizontal offset between fanned-out discard cards.
pub const STACKED_CARD_X_STRIDE: i32 = 35;
/// Vertical offset between stacked tableau cards.
pub const STACKED_CARD_Y_STRIDE: i32 = 45;

/// Horizontal distance between neighbouring pile anchors.
pub const CARD_X_STRIDE: i32 = 145;
/// Vertical distance between the pile rows.
pub const CARD_Y_STRIDE: i32 = 195;

/// Anchor of the stock/discard pair.
pub const STOCK_DISCARD_X: i32 = PADDING;
pub const STOCK_DISCARD_Y: i32 = PADDING;

/// Anchor of the first foundation; the rest follow at `CARD_X_STRIDE`.
pub const FOUNDATIONS_X: i32 = PADDING + 3 * CARD_X_STRIDE;
pub const FOUNDATIONS_Y: i32 = PADDING;

/// Anchor of the first tableau; the rest follow at `CARD_X_STRIDE`.
pub const TABLEAUS_X: i32 = PADDING;
pub const TABLEAUS_Y: i32 = PADDING + CARD_Y_STRIDE;

/// Pile anchors are kept inside this range so that every offset the piles
/// ever add to an anchor (card strides, fan-out offsets, mouse centring)
/// still fits comfortably in an `i32`.
pub open spec fn coord_ok(c: int) -> bool {
    -100_000_000 <= c <= 100_000_000
}

} // verus!
