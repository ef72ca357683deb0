use vstd::prelude::*;
use crate::error::GitError;
use crate::git::objects::Object;
use crate::objects::Kind;

verus! {

#[derive(Debug)]
pub struct Options {
    pub pretty: bool,
}

/// What shows `object` (see `Object::spec_cat`). Only pretty printing is
/// supported: `NotFound` where `options` asks for anything else.
pub fn invoke(object: &Object, kinds: &Vec<Kind>, options: Options) -> (r: Result<
    Vec<u8>,
    GitError,
>)
    ensures
        match r {
            Ok(text) => options.pretty && object.spec_cat(kinds@) == Some(text@),
            Err(e) => if options.pretty {
                object.spec_cat(kinds@) is None && e == GitError::Format
            } else {
                e == GitError::NotFound
            },
        },
{
    if !options.pretty {
        return Err(GitError::NotFound);
    }
    object.cat(kinds)
}

} // verus!
