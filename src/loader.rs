//! Copies a boot image into guest memory before the first run.
use vstd::prelude::*;
use crate::aspace::{lemma_write_compose, lemma_write_nothing, AddrSpace, AspaceError, ByteRun};

verus! {

/// Why an image could not be loaded.
#[derive(Clone, Copy, Debug, PartialEq, Eq, Structural)]
pub enum LoadError {
    /// The image source could not be opened.
    NotFound,
    /// Reading the image source failed.
    Io,
    /// The image holds fewer bytes than its stated size.
    Truncated,
    /// Part of the destination range is not backed.
    NotMapped,
}

/// What `load_vm_image` answers for an image of `image_len` bytes whose
/// stated size is `image_size`, loaded at `load_addr` into `s`.
pub open spec fn load_outcome(s: AddrSpace, load_addr: int, image_len: int, image_size: int) -> Result<(), LoadError> {
    if !(load_addr + image_size <= usize::MAX && s.range_backed(load_addr, image_size)) {
        Err(LoadError::NotMapped)
    } else if image_len < image_size {
        Err(LoadError::Truncated)
    } else {
        Ok(())
    }
}

/// Copies the first `image_size` bytes of `image` to `load_addr`, one
/// physically contiguous piece of the destination after another. On any
/// error the space is left as it was.
pub fn load_vm_image(aspace: &mut AddrSpace, load_addr: usize, image: &[u8], image_size: usize) -> (r: Result<(), LoadError>)
    requires
        old(aspace).wf(),
    ensures
        final(aspace).wf(),
        r == load_outcome(*old(aspace), load_addr as int, image@.len() as int, image_size as int),
        r is Err ==> *final(aspace) == *old(aspace),
        r is Ok ==> old(aspace).write_effect(final(aspace), load_addr as int, image@.subrange(0, image_size as int)),
{
    let runs = match aspace.translated_byte_buffer(load_addr, image_size) {
        Ok(v) => v,
        Err(_) => {
            return Err(LoadError::NotMapped);
        },
    };
    if image.len() < image_size {
        return Err(LoadError::Truncated);
    }
    let ghost s0 = *aspace;
    proof {
        lemma_write_nothing(s0, load_addr as int);
        assert(image@.subrange(0, 0) =~= Seq::<u8>::empty());
    }
    let mut k: usize = 0;
    let mut pos: usize = 0;
    while k < runs.len()
        invariant
            aspace.wf(),
            s0.wf(),
            s0.runs_cover(runs@, load_addr as int, image_size as int),
            load_addr + image_size <= usize::MAX,
            s0.range_backed(load_addr as int, image_size as int),
            image_size <= image@.len(),
            k <= runs@.len(),
            pos <= image_size,
            k < runs@.len() ==> runs@[k as int].addr == load_addr + pos,
            k == runs@.len() ==> pos == image_size,
            s0.write_effect(aspace, load_addr as int, image@.subrange(0, pos as int)),
        decreases runs@.len() - k,
    {
        let run: ByteRun = runs[k];
        let ghost before = *aspace;
        proof {
            assert forall|a: int| run.addr <= a < run.addr + run.len implies #[trigger] before.backed(a) by {
                assert(s0.backed(a));
            }
        }
        aspace.store(run.addr, image, pos, run.len);
        proof {
            lemma_write_compose(s0, before, *aspace, load_addr as int, image@.subrange(0, pos as int), image@.subrange(pos as int, pos + run.len));
            assert(image@.subrange(0, pos as int) + image@.subrange(pos as int, pos + run.len) =~= image@.subrange(0, pos + run.len));
            if k + 1 < runs@.len() {
                assert(runs@[k + 1].addr == runs@[k as int].addr + runs@[k as int].len);
            }
        }
        pos = pos + run.len;
        k = k + 1;
    }
    Ok(())
}

} // verus!
