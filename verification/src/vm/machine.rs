use std::collections::HashMap;
use vstd::prelude::*;
use crate::vm::error::VmError;

verus! {

broadcast use vstd::std_specs::hash::group_hash_axioms;

/// The mathematical state of a machine: the instruction pointer, the
/// relative base, the dense store loaded from the program and the sparse
/// store that backs every address past it.
pub struct Snapshot {
    pub ip: i64,
    pub base: i64,
    pub dense: Seq<i64>,
    pub sparse: Map<i64, i64>,
}

impl Snapshot {
    /// The value held at `address`: the dense cell when the address lies in
    /// the program, else what was last written there, else 0.
    pub open spec fn read(self, address: int) -> i64 {
        if 0 <= address < self.dense.len() {
            self.dense[address]
        } else if self.sparse.contains_key(address as i64) {
            self.sparse[address as i64]
        } else {
            0
        }
    }

    /// The state after `value` is stored at `address`.
    pub open spec fn write(self, address: i64, value: i64) -> Snapshot {
        if 0 <= address < self.dense.len() {
            Snapshot { dense: self.dense.update(address as int, value), ..self }
        } else {
            Snapshot { sparse: self.sparse.insert(address, value), ..self }
        }
    }

    /// The state with the instruction pointer moved to `ip`.
    pub open spec fn jump(self, ip: i64) -> Snapshot {
        Snapshot { ip, ..self }
    }

    /// The state with the relative base set to `base`.
    pub open spec fn rebase(self, base: i64) -> Snapshot {
        Snapshot { base, ..self }
    }

    /// The state of a machine that has just been loaded with `program`.
    pub open spec fn boot(program: Seq<i64>) -> Snapshot {
        Snapshot { ip: 0, base: 0, dense: program, sparse: Map::empty() }
    }
}

/// An Intcode machine: a program in memory, an instruction pointer and a
/// relative base. Memory past the end of the program is unbounded and reads
/// as 0 until written.
pub struct VM {
    pub ip: i64,
    pub storage: Vec<i64>,
    pub base: i64,
    pub more_storage: HashMap<i64, i64>,
}

impl View for VM {
    type V = Snapshot;

    open spec fn view(&self) -> Snapshot {
        Snapshot {
            ip: self.ip,
            base: self.base,
            dense: self.storage@,
            sparse: self.more_storage@,
        }
    }
}

impl VM {
    /// A machine loaded with `storage`, about to execute the word at address 0.
    pub fn new(storage: Vec<i64>) -> (vm: VM)
        ensures
            vm@ == Snapshot::boot(storage@),
    {
        VM { ip: 0, storage, base: 0, more_storage: HashMap::new() }
    }

    /// The value at `address`. Only a negative address is refused.
    pub fn read(&self, address: i64) -> (r: Result<i64, VmError>)
        ensures
            match r {
                Ok(value) => address >= 0 && value == self@.read(address as int),
                Err(e) => address < 0 && e == VmError::InvalidAddress,
            },
    {
        if address < 0 {
            return Err(VmError::InvalidAddress);
        }
        if (address as u64) < (self.storage.len() as u64) {
            Ok(self.storage[address as usize])
        } else {
            match self.more_storage.get(&address) {
                Some(value) => Ok(*value),
                None => Ok(0),
            }
        }
    }

    /// Stores `value` at `address`, in the program's own cells when the
    /// address lies there and in the sparse store otherwise. Only a negative
    /// address is refused, and then nothing changes.
    pub fn write(&mut self, address: i64, value: i64) -> (r: Result<(), VmError>)
        ensures
            match r {
                Ok(_) => address >= 0 && final(self)@ == old(self)@.write(address, value),
                Err(e) => address < 0 && e == VmError::InvalidAddress && final(self)@ == old(
                    self,
                )@,
            },
    {
        if address < 0 {
            return Err(VmError::InvalidAddress);
        }
        if (address as u64) < (self.storage.len() as u64) {
            self.storage.set(address as usize, value);
        } else {
            self.more_storage.insert(address, value);
        }
        Ok(())
    }

    /// The value at the address that is stored at `address`.
    pub fn read_ptr(&self, address: i64) -> (r: Result<i64, VmError>)
        ensures
            match r {
                Ok(value) => address >= 0 && self@.read(address as int) >= 0 && value
                    == self@.read(self@.read(address as int) as int),
                Err(e) => (address < 0 || self@.read(address as int) < 0) && e
                    == VmError::InvalidAddress,
            },
    {
        let ptr: i64 = match self.read(address) {
            Ok(ptr) => ptr,
            Err(e) => {
                return Err(e);
            },
        };
        self.read(ptr)
    }

    /// Stores `value` at the address that is stored at `address`.
    pub fn write_ptr(&mut self, address: i64, value: i64) -> (r: Result<(), VmError>)
        ensures
            match r {
                Ok(_) => address >= 0 && old(self)@.read(address as int) >= 0 && final(self)@
                    == old(self)@.write(old(self)@.read(address as int), value),
                Err(e) => (address < 0 || old(self)@.read(address as int) < 0) && e
                    == VmError::InvalidAddress && final(self)@ == old(self)@,
            },
    {
        let ptr: i64 = match self.read(address) {
            Ok(ptr) => ptr,
            Err(e) => {
                return Err(e);
            },
        };
        self.write(ptr, value)
    }

    /// Sets the two parameters of a program: `noun` at address 1 and `verb`
    /// at address 2.
    pub fn init(&mut self, noun: i64, verb: i64)
        ensures
            final(self)@ == old(self)@.write(1, noun).write(2, verb),
    {
        let _ = self.write(1, noun);
        let _ = self.write(2, verb);
    }

    /// Moves the instruction pointer forward by `inc`, unless that leaves the
    /// 64-bit range.
    pub fn advance_ip(&mut self, inc: i64) -> (r: Result<(), VmError>)
        ensures
            match r {
                Ok(_) => i64::MIN <= old(self).ip + inc <= i64::MAX && final(self)@ == old(
                    self,
                )@.jump((old(self).ip + inc) as i64),
                Err(e) => !(i64::MIN <= old(self).ip + inc <= i64::MAX) && e
                    == VmError::Overflow && final(self)@ == old(self)@,
            },
    {
        match self.ip.checked_add(inc) {
            Some(ip) => {
                self.ip = ip;
                Ok(())
            },
            None => Err(VmError::Overflow),
        }
    }

    /// Whether the machine stands on a halt instruction.
    pub fn stopped(&self) -> (r: bool)
        ensures
            r == (self.ip >= 0 && self@.read(self.ip as int) == 99),
    {
        match self.read(self.ip) {
            Ok(word) => word == 99,
            Err(_) => false,
        }
    }
}

} // verus!
