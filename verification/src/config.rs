//! The two numbers that fix a game: the side of the board and the length
//! of a winning line.

use vstd::prelude::*;

verus! {

/// The largest board side that is accepted. A board is stored with a border
/// of one cell on every side, and the number of stored cells has to fit in
/// 32 bits.
pub const MAX_SIZE: usize = 65533;

/// Why a pair of board side and winning length was turned down.
#[derive(Clone, Copy, Debug, PartialEq, Eq, Structural)]
pub enum ConfigError {
    /// The board has no cells.
    ZeroSize,
    /// The winning length is longer than the side of the board.
    WinExceedsSize,
    /// The side of the board is larger than `MAX_SIZE`.
    TooLarge,
}

/// What `Config::new` answers for a board side and a winning length.
pub open spec fn checked(size: int, win: int) -> Result<(int, int), ConfigError> {
    if size == 0 {
        Err(ConfigError::ZeroSize)
    } else if win > size {
        Err(ConfigError::WinExceedsSize)
    } else if size > MAX_SIZE {
        Err(ConfigError::TooLarge)
    } else {
        Ok((size, win))
    }
}

/// A board side and a winning length that fit together.
#[derive(Clone, Copy, Debug)]
pub struct Config {
    size: usize,
    win: usize,
}

impl Config {
    /// The side of the board.
    pub closed spec fn side(&self) -> int {
        self.size as int
    }

    /// The number of stones in a line that wins.
    pub closed spec fn goal(&self) -> int {
        self.win as int
    }

    /// What every accepted configuration satisfies.
    pub open spec fn wf(&self) -> bool {
        1 <= self.side() <= MAX_SIZE && 0 <= self.goal() <= self.side()
    }

    /// Accepts a board side and a winning length, or says why not: an empty
    /// board, a winning length that no line on the board can reach, or a
    /// board too large to store.
    pub fn new(size: usize, win: usize) -> (made: Result<Config, ConfigError>)
        ensures
            match made {
                Ok(c) => c.wf() && checked(size as int, win as int) == Ok::<(int, int), ConfigError>(
                    (c.side(), c.goal()),
                ),
                Err(e) => checked(size as int, win as int) == Err::<(int, int), ConfigError>(e),
            },
    {
        if size == 0 {
            Err(ConfigError::ZeroSize)
        } else if win > size {
            Err(ConfigError::WinExceedsSize)
        } else if size > MAX_SIZE {
            Err(ConfigError::TooLarge)
        } else {
            Ok(Config { size, win })
        }
    }

    /// The side of the board.
    pub fn size(&self) -> (s: usize)
        ensures
            s == self.side(),
    {
        self.size
    }

    /// The number of stones in a line that wins.
    pub fn win(&self) -> (k: usize)
        ensures
            k == self.goal(),
    {
        self.win
    }

    /// The number of cells of the board.
    pub fn cells(&self) -> (n: usize)
        requires
            self.wf(),
        ensures
            n == self.side() * self.side(),
            n <= u32::MAX,
    {
        assert(self.size * self.size <= 65533 * 65533) by (nonlinear_arith)
            requires
                self.size <= 65533,
        ;
        self.size * self.size
    }
}

} // verus!
