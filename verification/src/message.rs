//! The envelope that travels between units.

use crate::error::Error;
use vstd::prelude::*;

verus! {

/// The address of the master.
pub const MASTER_ADDRESS: u64 = 1;

/// One routed unit: ordinary data, a request to spawn, or a notice of exit.
/// A field that is zero or empty is absent.
#[derive(Debug, PartialEq, Eq)]
pub struct Message {
    pub from: u64,
    pub to: u64,
    pub data: Vec<u8>,
    pub spawn: String,
    pub spawn_address: u64,
    pub exit: i32,
    pub parent_address: u64,
    pub your_address: u64,
}

/// What a `Message` holds.
pub ghost struct MessageView {
    pub from: u64,
    pub to: u64,
    pub data: Seq<u8>,
    pub spawn: Seq<char>,
    pub spawn_address: u64,
    pub exit: i32,
    pub parent_address: u64,
    pub your_address: u64,
}

impl MessageView {
    /// The message with every field absent.
    pub open spec fn empty() -> MessageView {
        MessageView {
            from: 0,
            to: 0,
            data: Seq::empty(),
            spawn: Seq::empty(),
            spawn_address: 0,
            exit: 0,
            parent_address: 0,
            your_address: 0,
        }
    }

    /// Ordinary data from `from` to `to`.
    pub open spec fn data_message(from: u64, to: u64, data: Seq<u8>) -> MessageView {
        MessageView { from, to, data, ..MessageView::empty() }
    }

    /// The request that `from` sends to the master to have `name` spawned at
    /// `spawn_address`.
    pub open spec fn spawn_request(from: u64, name: Seq<char>, spawn_address: u64) -> MessageView {
        MessageView { from, to: MASTER_ADDRESS, spawn: name, spawn_address, ..MessageView::empty() }
    }

    /// The notice of exit with `code`, from and to the master's address.
    pub open spec fn exit_notice(code: i32) -> MessageView {
        MessageView { from: MASTER_ADDRESS, to: MASTER_ADDRESS, exit: code, ..MessageView::empty() }
    }

    /// A sender and a receiver are both named.
    pub open spec fn addressed(self) -> bool {
        self.from != 0 && self.to != 0
    }
}

impl View for Message {
    type V = MessageView;

    open spec fn view(&self) -> MessageView {
        MessageView {
            from: self.from,
            to: self.to,
            data: self.data@,
            spawn: self.spawn@,
            spawn_address: self.spawn_address,
            exit: self.exit,
            parent_address: self.parent_address,
            your_address: self.your_address,
        }
    }
}

impl Clone for Message {
    fn clone(&self) -> (copy: Message)
        ensures
            copy@ == self@,
    {
        let copy = Message {
            from: self.from,
            to: self.to,
            data: self.data.clone(),
            spawn: self.spawn.clone(),
            spawn_address: self.spawn_address,
            exit: self.exit,
            parent_address: self.parent_address,
            your_address: self.your_address,
        };
        assert(copy.data@ =~= self.data@);
        copy
    }
}

impl Message {
    /// The message with every field absent.
    pub fn new() -> (m: Message)
        ensures
            m@ == MessageView::empty(),
    {
        Message {
            from: 0,
            to: 0,
            data: Vec::new(),
            spawn: String::new(),
            spawn_address: 0,
            exit: 0,
            parent_address: 0,
            your_address: 0,
        }
    }

    /// Names the receiver.
    pub fn set_to(&mut self, to: u64)
        ensures
            final(self)@ == (MessageView { to, ..old(self)@ }),
    {
        self.to = to;
    }

    /// Names the sender.
    pub fn set_from(&mut self, from: u64)
        ensures
            final(self)@ == (MessageView { from, ..old(self)@ }),
    {
        self.from = from;
    }

    /// Sets the data.
    pub fn set_data(&mut self, data: Vec<u8>)
        ensures
            final(self)@ == (MessageView { data: data@, ..old(self)@ }),
    {
        self.data = data;
    }

    /// Names what is to be spawned.
    pub fn set_spawn(&mut self, name: String)
        ensures
            final(self)@ == (MessageView { spawn: name@, ..old(self)@ }),
    {
        self.spawn = name;
    }

    /// Sets the address at which it is to be spawned.
    pub fn set_spawn_address(&mut self, spawn_address: u64)
        ensures
            final(self)@ == (MessageView { spawn_address, ..old(self)@ }),
    {
        self.spawn_address = spawn_address;
    }

    /// Sets the exit code.
    pub fn set_exit(&mut self, code: i32)
        ensures
            final(self)@ == (MessageView { exit: code, ..old(self)@ }),
    {
        self.exit = code;
    }

    /// `Err(InvalidMessage)` exactly when the sender or the receiver is
    /// address zero.
    pub fn check_addressed(&self) -> (r: Result<(), Error>)
        ensures
            self@.addressed() <==> r is Ok,
            r is Err ==> r == Err::<(), Error>(Error::InvalidMessage),
    {
        if self.from == 0 || self.to == 0 {
            Err(Error::InvalidMessage)
        } else {
            Ok(())
        }
    }
}

} // verus!
