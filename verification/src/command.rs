//! The closed command set of the editor and its dispatcher.
//!
//! A host input mapper turns raw input events into these commands; the
//! buffer applies each one unconditionally. Only `EnterInsert` and
//! `ExitInsert` change the mode; routing character input to `Insert` mode
//! only is the mapper's policy, not the model's.

use vstd::prelude::*;

use crate::buffer::BufferModel;
use crate::buffer::JsonBuffer;
use crate::buffer::select_all_children_m;
use crate::buffer::select_down_m;
use crate::buffer::select_first_child_m;
use crate::buffer::select_parent_m;
use crate::buffer::select_up_m;
use crate::convert::input_all;
use crate::convert::objectify_all;
use crate::convert::stringify_all;
use crate::insert::InsertPlace;
use crate::insert::new_child_all;
use crate::node::JsonBufferMode;
use crate::node::JsonInput;

verus! {

/// One abstract editor command, as delivered by a host input mapper.
#[derive(Clone, Copy, Debug, PartialEq, Eq)]
pub enum JsonCommand {
    SelectUp,
    SelectDown,
    SelectParent,
    SelectFirstChild,
    SelectAllChildren,
    NewFirstChild,
    NewUpSibling,
    NewDownSibling,
    EnterInsert,
    ExitInsert,
    Objectify,
    Stringify,
    Input(JsonInput),
}

/// The whole-buffer transform of one command on the model.
pub open spec fn step(m: BufferModel, cmd: JsonCommand) -> BufferModel {
    match cmd {
        JsonCommand::SelectUp => select_up_m(m),
        JsonCommand::SelectDown => select_down_m(m),
        JsonCommand::SelectParent => select_parent_m(m),
        JsonCommand::SelectFirstChild => select_first_child_m(m),
        JsonCommand::SelectAllChildren => select_all_children_m(m),
        JsonCommand::NewFirstChild => BufferModel {
            nodes: new_child_all(m.nodes, m.selections, InsertPlace::FirstChild).0,
            selections: new_child_all(m.nodes, m.selections, InsertPlace::FirstChild).1,
            mode: m.mode,
        },
        JsonCommand::NewUpSibling => BufferModel {
            nodes: new_child_all(m.nodes, m.selections, InsertPlace::Before).0,
            selections: new_child_all(m.nodes, m.selections, InsertPlace::Before).1,
            mode: m.mode,
        },
        JsonCommand::NewDownSibling => BufferModel {
            nodes: new_child_all(m.nodes, m.selections, InsertPlace::After).0,
            selections: new_child_all(m.nodes, m.selections, InsertPlace::After).1,
            mode: m.mode,
        },
        JsonCommand::EnterInsert => BufferModel { mode: JsonBufferMode::Insert, ..m },
        JsonCommand::ExitInsert => BufferModel { mode: JsonBufferMode::Normal, ..m },
        JsonCommand::Objectify => BufferModel {
            nodes: objectify_all(m.nodes, m.selections),
            ..m
        },
        JsonCommand::Stringify => BufferModel {
            nodes: stringify_all(m.nodes, m.selections),
            ..m
        },
        JsonCommand::Input(inp) => BufferModel {
            nodes: input_all(m.nodes, m.selections, inp),
            ..m
        },
    }
}

impl JsonBuffer {
    /// Apply one command: the mode machine for `EnterInsert`/`ExitInsert`,
    /// and the matching operation for everything else.
    pub fn apply(&mut self, cmd: JsonCommand)
        requires
            old(self).wf(),
        ensures
            final(self).wf(),
            final(self)@ == step(old(self)@, cmd),
    {
        let ghost orig = self@;
        match cmd {
            JsonCommand::SelectUp => self.select_up(),
            JsonCommand::SelectDown => self.select_down(),
            JsonCommand::SelectParent => self.select_parent(),
            JsonCommand::SelectFirstChild => self.select_first_child(),
            JsonCommand::SelectAllChildren => self.select_all_children(),
            JsonCommand::NewFirstChild => self.new_first_child(),
            JsonCommand::NewUpSibling => self.new_up_sibling(),
            JsonCommand::NewDownSibling => self.new_down_sibling(),
            JsonCommand::EnterInsert => {
                self.mode = JsonBufferMode::Insert;
            },
            JsonCommand::ExitInsert => {
                self.mode = JsonBufferMode::Normal;
            },
            JsonCommand::Objectify => self.objectify(),
            JsonCommand::Stringify => self.stringify(),
            JsonCommand::Input(inp) => self.input(inp),
        }
        proof {
            assert(self@ =~= step(orig, cmd));
        }
    }
}

} // verus!
