//! The wallet's configuration values and its contact book.
use vstd::prelude::*;

verus! {

/// Where a key pair is kept: the paths of its public and private halves.
#[derive(Clone, Debug)]
pub struct Key {
    pub public: String,
    pub private: String,
}

/// A named recipient and its address.
#[derive(Clone, Debug)]
pub struct Recipient {
    pub name: String,
    pub address: String,
}

/// How the wallet computes its fee.
#[derive(Clone, Copy, Debug, PartialEq, Eq, Structural)]
pub enum FeeType {
    Fixed,
    Percent,
}

/// What became of a submitted transaction.
#[derive(Clone, Debug)]
pub enum TransactionResult {
    Success,
    Rejected(String),
    Error(String),
}

/// The position of the first contact named `name`.
pub fn find_contact_by_name(contacts: &Vec<Recipient>, name: &String) -> (r: Option<usize>)
    ensures
        match r {
            Some(i) => i < contacts@.len() && contacts@[i as int].name@ == name@ && forall|j: int|
                0 <= j < i ==> contacts@[j].name@ != name@,
            None => forall|j: int| 0 <= j < contacts@.len() ==> contacts@[j].name@ != name@,
        },
{
    let mut i: usize = 0;
    while i < contacts.len()
        invariant
            i <= contacts@.len(),
            forall|j: int| 0 <= j < i ==> contacts@[j].name@ != name@,
        decreases contacts@.len() - i,
    {
        if contacts[i].name == *name {
            return Some(i);
        }
        i += 1;
    }
    None
}

/// The position of the first contact with `address`.
pub fn find_contact_by_address(contacts: &Vec<Recipient>, address: &String) -> (r: Option<usize>)
    ensures
        match r {
            Some(i) => i < contacts@.len() && contacts@[i as int].address@ == address@ && forall|j: int|
                0 <= j < i ==> contacts@[j].address@ != address@,
            None => forall|j: int| 0 <= j < contacts@.len() ==> contacts@[j].address@ != address@,
        },
{
    let mut i: usize = 0;
    while i < contacts.len()
        invariant
            i <= contacts@.len(),
            forall|j: int| 0 <= j < i ==> contacts@[j].address@ != address@,
        decreases contacts@.len() - i,
    {
        if contacts[i].address == *address {
            return Some(i);
        }
        i += 1;
    }
    None
}

} // verus!
