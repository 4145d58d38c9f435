//! A line-oriented stack language: tokenizer, label resolver, stack machine
//! and an in-memory file system, with their contracts.
use vstd::prelude::*;

pub mod integer;
pub mod token;
pub mod text;
pub mod parser;
pub mod optimize;
pub mod vfs;
pub mod interpreter;

use vfs::{read_spec, FileStreamMode, FileSystem, VirtualFileStream, VirtualFileSystem};
use vstd::string::StringSliceAdditionalSpecFns;

verus! {

/// Whether what is left to read of `file` is exactly the bytes of `contents`.
/// A stream that cannot be read holds nothing that equals them.
pub fn assert_file_contents_equal(
    fs: &mut VirtualFileSystem,
    file: &mut VirtualFileStream,
    contents: &str,
) -> (r: bool)
    ensures
        old(file).mode == FileStreamMode::ReadOnly && old(file).file < old(fs)@.len()
            && old(fs)@[old(file).file as int].is_file ==> r == (read_spec(
            old(fs)@[old(file).file as int].data,
            old(file).pointer_pos as int,
            usize::MAX as int,
        ) == contents.spec_bytes()),
{
    let expected = contents.as_bytes();
    match fs.read(file, usize::MAX) {
        Err(_) => false,
        Ok(got) => {
            if got.len() != expected.len() {
                return false;
            }
            let mut i: usize = 0;
            while i < got.len()
                invariant
                    old(file).mode == FileStreamMode::ReadOnly && old(file).file < old(fs)@.len()
                        && old(fs)@[old(file).file as int].is_file ==> got@ == read_spec(
                        old(fs)@[old(file).file as int].data,
                        old(file).pointer_pos as int,
                        usize::MAX as int,
                    ),
                    expected@ == contents.spec_bytes(),
                    got@.len() == expected@.len(),
                    0 <= i <= got@.len(),
                    forall|j: int| 0 <= j < i ==> got@[j] == expected@[j],
                decreases got@.len() - i,
            {
                if got[i] != expected[i] {
                    assert(got@[i as int] != expected@[i as int]);
                    assert(got@ != expected@);
                    return false;
                }
                i = i + 1;
            }
            assert(got@ =~= expected@);
            true
        },
    }
}

} // verus!
