use vstd::prelude::*;
use crate::board::{pruned, Board};
use crate::check::{board_consistent, board_filled};
use crate::error::SudokuError;
use crate::singles::{all_hidden_singles, fill_outcome, filled, naked_singles};

verus! {

/// Where a solving run stands: the step that comes next, or how it ended.
/// `FillNaked` carries whether the hidden singles of the same round changed the board.
#[derive(Debug, Clone, Copy, PartialEq, Eq, Structural)]
pub enum SolveStage {
    Start,
    CheckComplete,
    FillHidden,
    FillNaked(bool),
    Solved,
    Stuck,
}

impl Board {
    /// Takes one step of a solving run and says where the run stands after it.
    /// A run rules out the candidates the given digits forbid, then goes round:
    /// it stops when the board is solved; otherwise it places the hidden singles,
    /// then the naked singles, and stops when neither changed anything.
    pub fn advance(&mut self, stage: SolveStage) -> (r: Result<SolveStage, SudokuError>)
        requires
            old(self).wf(),
        ensures
            final(self).wf(),
            match stage {
                SolveStage::Start => final(self)@ == pruned(old(self)@) && r == Ok::<SolveStage, SudokuError>(
                    SolveStage::CheckComplete,
                ),
                SolveStage::CheckComplete => {
                    &&& final(self)@ == old(self)@
                    &&& (!board_consistent(old(self)@) ==> r matches Err(SudokuError::InvalidState))
                    &&& board_consistent(old(self)@) ==> r == Ok::<SolveStage, SudokuError>(
                        if board_filled(old(self)@) {
                            SolveStage::Solved
                        } else {
                            SolveStage::FillHidden
                        },
                    )
                },
                SolveStage::FillHidden => {
                    &&& final(self)@ == filled(old(self)@, all_hidden_singles(old(self)@))
                    &&& match fill_outcome(old(self)@, all_hidden_singles(old(self)@)) {
                        Ok(changed) => r == Ok::<SolveStage, SudokuError>(SolveStage::FillNaked(changed)),
                        Err(e) => r == Err::<SolveStage, SudokuError>(e),
                    }
                },
                SolveStage::FillNaked(before) => {
                    &&& final(self)@ == filled(old(self)@, naked_singles(old(self)@))
                    &&& match fill_outcome(old(self)@, naked_singles(old(self)@)) {
                        Ok(changed) => r == Ok::<SolveStage, SudokuError>(
                            if before || changed {
                                SolveStage::CheckComplete
                            } else {
                                SolveStage::Stuck
                            },
                        ),
                        Err(e) => r == Err::<SolveStage, SudokuError>(e),
                    }
                },
                SolveStage::Solved | SolveStage::Stuck => final(self)@ == old(self)@ && r
                    == Ok::<SolveStage, SudokuError>(stage),
            },
    {
        match stage {
            SolveStage::Start => {
                self.remove_visible_candidates();
                Ok(SolveStage::CheckComplete)
            },
            SolveStage::CheckComplete => {
                match self.is_complete() {
                    Ok(true) => Ok(SolveStage::Solved),
                    Ok(false) => Ok(SolveStage::FillHidden),
                    Err(e) => Err(e),
                }
            },
            SolveStage::FillHidden => {
                match self.fill_hidden_singles() {
                    Ok(changed) => Ok(SolveStage::FillNaked(changed)),
                    Err(e) => Err(e),
                }
            },
            SolveStage::FillNaked(before) => {
                match self.fill_naked_singles() {
                    Ok(changed) => {
                        if before || changed {
                            Ok(SolveStage::CheckComplete)
                        } else {
                            Ok(SolveStage::Stuck)
                        }
                    },
                    Err(e) => Err(e),
                }
            },
            SolveStage::Solved => Ok(SolveStage::Solved),
            SolveStage::Stuck => Ok(SolveStage::Stuck),
        }
    }
}

} // verus!
