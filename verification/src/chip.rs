//! Reusable parts of circuits.
use crate::builder::{
    advanced, child_frame, is_circuit_section, BuilderState, Frame, CircuitBuilder,
    CircuitSectionBuilder, CircuitView,
};
use crate::cell::Cell;
use crate::witness::{CellOrUnconstrained, Place, place_fits, Witness, WitnessSection, WitnessView};
use vstd::prelude::*;

verus! {

/// A chip of the given dimensions can be built at the next unused row of a view.
pub open spec fn has_room(frame: Frame, width: int, height: int) -> bool {
    &&& 0 <= frame.row
    &&& 0 <= frame.column
    &&& 0 <= frame.counter
    &&& frame.row + frame.counter + height < usize::MAX
    &&& frame.column + width <= isize::MAX
}

/// The rows and columns of a view are in the range of [`isize`].
pub open spec fn place_addressable(place: Place) -> bool {
    &&& place.row + place.height <= isize::MAX
    &&& place.column + place.width <= isize::MAX
}

/// The cells among the inputs are cells of the witness.
pub open spec fn inputs_exist(inputs: Seq<CellOrUnconstrained>, witness: Witness) -> bool {
    forall|i: int|
        0 <= i < inputs.len() ==> (#[trigger] inputs[i] matches CellOrUnconstrained::Cell(c)
            ==> witness.has(c))
}

/// Represents a reusable PLONK chip that you can use to build circuits.
///
/// The generic parameter `I` is the number of inputs and `O` is the number of outputs.
pub trait Chip<const I: usize, const O: usize>: Sized {
    /// The error that the chip reports.
    type Error;

    /// The number of columns required by the chip.
    open spec fn spec_width(&self) -> int {
        arbitrary()
    }

    /// The number of rows required by the chip.
    open spec fn spec_height(&self) -> int {
        arbitrary()
    }

    /// Returns the number of columns required by the chip.
    fn width(&self) -> (ret: usize)
        ensures
            ret == self.spec_width(),
    ;

    /// Returns the number of rows required by the chip.
    fn height(&self) -> (ret: usize)
        ensures
            ret == self.spec_height(),
    ;

    /// Builds the chip on the provided [`CircuitView`].
    fn build<V: CircuitView>(
        &self,
        builder: &mut V,
        inputs: [Option<Cell>; I],
    ) -> (ret: Result<[Option<Cell>; O], Self::Error>)
        requires
            old(builder).spec_width() matches Some(width) && width == self.spec_width(),
            has_room(
                old(builder).frame_at(old(builder).contents()),
                self.spec_width(),
                self.spec_height(),
            ),
    ;

    /// Witnesses execution of the chip in the provided [`WitnessView`].
    fn witness<V: WitnessView>(
        &self,
        witness: &mut V,
        inputs: [CellOrUnconstrained; I],
    ) -> (ret: Result<[CellOrUnconstrained; O], Self::Error>)
        requires
            old(witness).place().width == self.spec_width(),
            old(witness).place().height == self.spec_height(),
            place_fits(old(witness).place(), old(witness).spec_witness()),
            place_addressable(old(witness).place()),
            inputs_exist(inputs@, old(witness).spec_witness()),
    ;
}

/// Spawns a child [`WitnessView`] at the given coordinates and runs the provided `chip` on it.
///
/// The chip is handed the section of the witness that starts at the given offsets and has the
/// dimensions of the chip; what it returns is returned.
pub fn sub_chip<const I: usize, const O: usize, V: WitnessView, K: Chip<I, O>>(
    parent: &mut V,
    row_offset: usize,
    column_offset: usize,
    chip: &K,
    inputs: [CellOrUnconstrained; I],
) -> (ret: Result<[CellOrUnconstrained; O], K::Error>)
    requires
        column_offset + chip.spec_width() <= old(parent).place().width,
        row_offset + chip.spec_height() <= old(parent).place().height,
        place_fits(old(parent).place(), old(parent).spec_witness()),
        place_addressable(old(parent).place()),
        inputs_exist(inputs@, old(parent).spec_witness()),
    ensures
        exists|view: &mut WitnessSection|
            *view.witness == old(parent).spec_witness() && view.spec_place() == (Place {
                row: old(parent).place().row + row_offset,
                column: old(parent).place().column + column_offset,
                width: chip.spec_width(),
                height: chip.spec_height(),
            }) && #[trigger] call_ensures(
                <K as Chip<I, O>>::witness::<WitnessSection>,
                (chip, view, inputs),
                ret,
            ) && final(parent).spec_witness() == *final(view.witness) && *final(final(view).witness)
                == *final(view).witness,
        final(parent).spec_witness().same_shape(old(parent).spec_witness()) ==> final(parent).place() == old(
            parent,
        ).place(),
{
    let width: usize = chip.width();
    let height: usize = chip.height();
    let mut section = parent.sub(row_offset, column_offset, Some(width), Some(height));
    let view = &mut section;
    chip.witness(view, inputs)
}

/// Spawns a child [`CircuitView`] at the given coordinates and runs the provided `chip` on it.
///
/// The chip is handed the section of the circuit that starts at the given offsets and has the width
/// of the chip; what it returns is returned.
pub fn build_sub_chip<const I: usize, const O: usize, V: CircuitView, K: Chip<I, O>>(
    parent: &mut V,
    row_offset: usize,
    column_offset: usize,
    chip: &K,
    inputs: [Option<Cell>; I],
) -> (ret: Result<[Option<Cell>; O], K::Error>)
    requires
        has_room(
            child_frame(
                old(parent).frame_at(old(parent).contents()),
                row_offset,
                column_offset,
            ),
            chip.spec_width(),
            chip.spec_height(),
        ),
        chip.spec_width() >= 0,
        chip.spec_height() >= 0,
    ensures
        exists|view: &mut CircuitSectionBuilder|
            view.width == chip.spec_width() && is_circuit_section(
                view,
                advanced(
                    old(parent).contents(),
                    child_frame(
                        old(parent).frame_at(old(parent).contents()),
                        row_offset,
                        column_offset,
                    ),
                    0,
                ),
                child_frame(
                    old(parent).frame_at(old(parent).contents()),
                    row_offset,
                    column_offset,
                ),
                view.width,
            ) && #[trigger] call_ensures(
                <K as Chip<I, O>>::build::<CircuitSectionBuilder>,
                (chip, view, inputs),
                ret,
            ) && final(parent).contents() == final(view.builder).state() && *final(final(view).builder)
                == *final(view).builder,
        forall|s: BuilderState| #[trigger] final(parent).frame_at(s) == old(parent).frame_at(s),
        final(parent).spec_width() == old(parent).spec_width(),
{
    let width: usize = chip.width();
    let mut child = parent.sub(row_offset, column_offset, width);
    let view = &mut child;
    chip.build(view, inputs)
}

impl Witness {
    /// Spawns a child [`WitnessView`] at the given coordinates and runs the provided `chip` on it.
    pub fn sub_chip<const I: usize, const O: usize, K: Chip<I, O>>(
        &mut self,
        row_offset: usize,
        column_offset: usize,
        chip: &K,
        inputs: [CellOrUnconstrained; I],
    ) -> (ret: Result<[CellOrUnconstrained; O], K::Error>)
        requires
            column_offset + chip.spec_width() <= old(self).place().width,
            row_offset + chip.spec_height() <= old(self).place().height,
            place_fits(old(self).place(), old(self).spec_witness()),
            place_addressable(old(self).place()),
            inputs_exist(inputs@, old(self).spec_witness()),
        ensures
            exists|view: &mut WitnessSection|
                *view.witness == old(self).spec_witness() && view.spec_place() == (Place {
                    row: old(self).place().row + row_offset,
                    column: old(self).place().column + column_offset,
                    width: chip.spec_width(),
                    height: chip.spec_height(),
                }) && #[trigger] call_ensures(
                    <K as Chip<I, O>>::witness::<WitnessSection>,
                    (chip, view, inputs),
                    ret,
                ) && final(self).spec_witness() == *final(view.witness) && *final(final(view).witness)
                    == *final(view).witness,
            final(self).spec_witness().same_shape(old(self).spec_witness()) ==> final(self).place() == old(
                self,
            ).place(),
    {
        sub_chip(self, row_offset, column_offset, chip, inputs)
    }
}

impl<'a> WitnessSection<'a> {
    /// Spawns a child [`WitnessView`] at the given coordinates and runs the provided `chip` on it.
    pub fn sub_chip<const I: usize, const O: usize, K: Chip<I, O>>(
        &mut self,
        row_offset: usize,
        column_offset: usize,
        chip: &K,
        inputs: [CellOrUnconstrained; I],
    ) -> (ret: Result<[CellOrUnconstrained; O], K::Error>)
        requires
            column_offset + chip.spec_width() <= old(self).place().width,
            row_offset + chip.spec_height() <= old(self).place().height,
            place_fits(old(self).place(), old(self).spec_witness()),
            place_addressable(old(self).place()),
            inputs_exist(inputs@, old(self).spec_witness()),
        ensures
            exists|view: &mut WitnessSection|
                *view.witness == old(self).spec_witness() && view.spec_place() == (Place {
                    row: old(self).place().row + row_offset,
                    column: old(self).place().column + column_offset,
                    width: chip.spec_width(),
                    height: chip.spec_height(),
                }) && #[trigger] call_ensures(
                    <K as Chip<I, O>>::witness::<WitnessSection>,
                    (chip, view, inputs),
                    ret,
                ) && final(self).spec_witness() == *final(view.witness) && *final(final(view).witness)
                    == *final(view).witness,
            final(self).spec_witness().same_shape(old(self).spec_witness()) ==> final(self).place() == old(
                self,
            ).place(),
    {
        sub_chip(self, row_offset, column_offset, chip, inputs)
    }
}

impl CircuitBuilder {
    /// Spawns a child [`CircuitView`] at the given coordinates and runs the provided `chip` on it.
    pub fn sub_chip<const I: usize, const O: usize, K: Chip<I, O>>(
        &mut self,
        row_offset: usize,
        column_offset: usize,
        chip: &K,
        inputs: [Option<Cell>; I],
    ) -> (ret: Result<[Option<Cell>; O], K::Error>)
        requires
            has_room(
                child_frame(
                    old(self).frame_at(old(self).contents()),
                    row_offset,
                    column_offset,
                ),
                chip.spec_width(),
                chip.spec_height(),
            ),
            chip.spec_width() >= 0,
            chip.spec_height() >= 0,
        ensures
            exists|view: &mut CircuitSectionBuilder|
                view.width == chip.spec_width() && is_circuit_section(
                    view,
                    advanced(
                        old(self).contents(),
                        child_frame(
                            old(self).frame_at(old(self).contents()),
                            row_offset,
                            column_offset,
                        ),
                        0,
                    ),
                    child_frame(
                        old(self).frame_at(old(self).contents()),
                        row_offset,
                        column_offset,
                    ),
                    view.width,
                ) && #[trigger] call_ensures(
                    <K as Chip<I, O>>::build::<CircuitSectionBuilder>,
                    (chip, view, inputs),
                    ret,
                ) && final(self).contents() == final(view.builder).state() && *final(final(view).builder)
                    == *final(view).builder,
            forall|s: BuilderState| #[trigger] final(self).frame_at(s) == old(self).frame_at(s),
            final(self).spec_width() == old(self).spec_width(),
    {
        build_sub_chip(self, row_offset, column_offset, chip, inputs)
    }
}

impl<'a> CircuitSectionBuilder<'a> {
    /// Spawns a child [`CircuitView`] at the given coordinates and runs the provided `chip` on it.
    pub fn sub_chip<const I: usize, const O: usize, K: Chip<I, O>>(
        &mut self,
        row_offset: usize,
        column_offset: usize,
        chip: &K,
        inputs: [Option<Cell>; I],
    ) -> (ret: Result<[Option<Cell>; O], K::Error>)
        requires
            has_room(
                child_frame(
                    old(self).frame_at(old(self).contents()),
                    row_offset,
                    column_offset,
                ),
                chip.spec_width(),
                chip.spec_height(),
            ),
            chip.spec_width() >= 0,
            chip.spec_height() >= 0,
        ensures
            exists|view: &mut CircuitSectionBuilder|
                view.width == chip.spec_width() && is_circuit_section(
                    view,
                    advanced(
                        old(self).contents(),
                        child_frame(
                            old(self).frame_at(old(self).contents()),
                            row_offset,
                            column_offset,
                        ),
                        0,
                    ),
                    child_frame(
                        old(self).frame_at(old(self).contents()),
                        row_offset,
                        column_offset,
                    ),
                    view.width,
                ) && #[trigger] call_ensures(
                    <K as Chip<I, O>>::build::<CircuitSectionBuilder>,
                    (chip, view, inputs),
                    ret,
                ) && final(self).contents() == final(view.builder).state() && *final(final(view).builder)
                    == *final(view).builder,
            forall|s: BuilderState| #[trigger] final(self).frame_at(s) == old(self).frame_at(s),
            final(self).spec_width() == old(self).spec_width(),
    {
        build_sub_chip(self, row_offset, column_offset, chip, inputs)
    }
}

} // verus!
