//! Failures at the VMM boundary.

use vstd::prelude::*;
use vstd::string::StringExecFns;

use crate::text::append_decimal;
#[allow(unused_imports)]
use crate::text::decimal;

verus! {

/// Failure at the VMM boundary.
#[derive(Debug)]
pub enum Error {
    /// A hypervisor or host primitive failed.
    Backend { operation: &'static str, message: String },
    /// The VMM worker panicked.
    WorkerPanicked,
    /// Guest RAM must consist of one or more complete base pages.
    InvalidRamSize(usize),
    /// A host RAM access exceeded the guest memory slot.
    RamRange { offset: usize, len: usize },
    /// A page that was reported dirty lies outside guest RAM.
    InvalidDirtyPage { page: usize, pages: usize },
}

/// The causes in order, with a colon and a space between them.
pub open spec fn chained(causes: Seq<Seq<char>>) -> Seq<char>
    decreases causes.len(),
{
    if causes.len() == 0 {
        Seq::empty()
    } else if causes.len() == 1 {
        causes[0]
    } else {
        chained(causes.drop_last()) + ": "@ + causes.last()
    }
}

impl Error {
    /// A primitive's failure, told by the texts of the error and of its causes, outermost first.
    pub fn backend(operation: &'static str, causes: &Vec<String>) -> (error: Error)
        requires
            causes@.len() > 0,
        ensures
            error is Backend,
            error->operation == operation,
            error->message@ == chained(causes@.map_values(|cause: String| cause@)),
    {
        let ghost texts = causes@.map_values(|cause: String| cause@);
        let mut message: String = causes[0].clone();
        let n: usize = causes.len();
        let mut i: usize = 1;
        assert(texts.take(1).len() == 1 && texts.take(1)[0] == texts[0]);
        while i < n
            invariant
                1 <= i <= n,
                n == causes@.len(),
                texts == causes@.map_values(|cause: String| cause@),
                message@ == chained(texts.take(i as int)),
            decreases n - i,
        {
            message.append(": ");
            message.append(causes[i].as_str());
            assert(texts.take(i + 1).drop_last() =~= texts.take(i as int));
            assert(texts.take(i + 1).last() == texts[i as int]);
            i += 1;
        }
        assert(texts.take(n as int) =~= texts);
        Error::Backend { operation, message }
    }
}

impl Error {
    /// The error in words.
    pub fn message(&self) -> (text: String)
        ensures
            text@ == (match *self {
                Error::Backend { operation, message } => operation@ + ": "@ + message@,
                Error::WorkerPanicked => "Cloud Hypervisor VMM worker panicked"@,
                Error::InvalidRamSize(size) => "invalid guest RAM size "@ + decimal(size as nat),
                Error::RamRange { offset, len } => "guest RAM range offset="@ + decimal(offset as nat) + " length="@ + decimal(
                    len as nat,
                ) + " is out of bounds"@,
                Error::InvalidDirtyPage { page, pages } => "dirty guest page "@ + decimal(page as nat) + " is outside the "@
                    + decimal(pages as nat) + " pages of guest RAM"@,
            }),
    {
        match self {
            Error::Backend { operation, message } => {
                let mut text: String = (*operation).to_owned();
                text.append(": ");
                text.append(message.as_str());
                text
            },
            Error::WorkerPanicked => "Cloud Hypervisor VMM worker panicked".to_owned(),
            Error::InvalidRamSize(size) => {
                let mut text: String = "invalid guest RAM size ".to_owned();
                append_decimal(&mut text, *size as u64);
                text
            },
            Error::RamRange { offset, len } => {
                let mut text: String = "guest RAM range offset=".to_owned();
                append_decimal(&mut text, *offset as u64);
                text.append(" length=");
                append_decimal(&mut text, *len as u64);
                text.append(" is out of bounds");
                text
            },
            Error::InvalidDirtyPage { page, pages } => {
                let mut text: String = "dirty guest page ".to_owned();
                append_decimal(&mut text, *page as u64);
                text.append(" is outside the ");
                append_decimal(&mut text, *pages as u64);
                text.append(" pages of guest RAM");
                text
            },
        }
    }
}

} // verus!
