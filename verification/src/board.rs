//! The ownership board: the set of grid positions whose token has already
//! been minted, with no accounting attached.

use vstd::prelude::*;

verus! {

/// One board position.
#[derive(Clone, Copy, PartialEq, Eq, Structural, Debug)]
pub struct Pixel {
    pub x: u16,
    pub y: u16,
}

/// The set of minted positions, in mint order.
pub struct PixelBoard {
    pub minted_pixels: Vec<Pixel>,
}

/// The answer a mint query produces.
#[derive(Clone, Copy, PartialEq, Eq, Structural, Debug)]
pub struct MintedPixelResult {
    pub x: u16,
    pub y: u16,
    pub is_minted: bool,
}

/// Whether the board already holds the position.
pub open spec fn board_contains(board: Seq<Pixel>, p: Pixel) -> bool {
    exists|i: int| 0 <= i < board.len() && board[i] == p
}

/// Creates an empty board.
pub fn initialize_board() -> (b: PixelBoard)
    ensures
        b.minted_pixels@.len() == 0,
{
    PixelBoard { minted_pixels: Vec::new() }
}

/// Whether the position is already minted.
fn contains_pixel(board: &PixelBoard, p: Pixel) -> (r: bool)
    ensures
        r == board_contains(board.minted_pixels@, p),
{
    let mut i: usize = 0;
    while i < board.minted_pixels.len()
        invariant
            i <= board.minted_pixels@.len(),
            forall|j: int| 0 <= j < i ==> board.minted_pixels@[j] != p,
        decreases board.minted_pixels@.len() - i,
    {
        if board.minted_pixels[i].x == p.x && board.minted_pixels[i].y == p.y {
            return true;
        }
        i = i + 1;
    }
    false
}

/// Records a position as minted if it is new. Returns whether the caller
/// should mint the token: exactly when the position was not yet on the
/// board, which then grows by that one position.
pub fn update_board(board: &mut PixelBoard, x: u16, y: u16) -> (minted: bool)
    ensures
        minted == !board_contains(old(board).minted_pixels@, Pixel { x, y }),
        minted ==> final(board).minted_pixels@ == old(board).minted_pixels@.push(
            Pixel { x, y },
        ),
        !minted ==> *final(board) == *old(board),
        board_contains(final(board).minted_pixels@, Pixel { x, y }),
{
    let p = Pixel { x, y };
    if contains_pixel(board, p) {
        false
    } else {
        board.minted_pixels.push(p);
        proof {
            assert(final(board).minted_pixels@[final(board).minted_pixels@.len() - 1] == p);
        }
        true
    }
}

/// Whether the position is minted, as a plain answer.
pub fn is_minted_pixel(board: &PixelBoard, x: u16, y: u16) -> (r: bool)
    ensures
        r == board_contains(board.minted_pixels@, Pixel { x, y }),
{
    contains_pixel(board, Pixel { x, y })
}

/// Whether the position is minted, echoed together with the position.
pub fn is_minted_pixel_v2(board: &PixelBoard, x: u16, y: u16) -> (r: MintedPixelResult)
    ensures
        r.x == x,
        r.y == y,
        r.is_minted == board_contains(board.minted_pixels@, Pixel { x, y }),
{
    let is_minted = contains_pixel(board, Pixel { x, y });
    MintedPixelResult { x, y, is_minted }
}

} // verus!
