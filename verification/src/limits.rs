use vstd::prelude::*;

use crate::error::{err_kind, ErrKind, PnmError};

verus! {

/// Caller-supplied resource ceilings, each independently optional.
///
/// Checked after header parsing and before any pixel-sized allocation, so a
/// hostile header cannot drive a large allocation past the caller's budget.
#[derive(Debug, Clone)]
pub struct Limits {
    /// Maximum accepted image width, in pixels.
    pub max_width: Option<u64>,
    /// Maximum accepted image height, in pixels.
    pub max_height: Option<u64>,
    /// Maximum accepted total pixel count (width times height).
    pub max_pixels: Option<u64>,
    /// Maximum accepted decoded buffer size, in bytes.
    pub max_memory_bytes: Option<u64>,
}

/// Whether dimensions `w` by `h` satisfy every configured dimension ceiling.
pub open spec fn dims_within(l: Limits, w: u32, h: u32) -> bool {
    &&& match l.max_width {
        Some(m) => w as int <= m as int,
        None => true,
    }
    &&& match l.max_height {
        Some(m) => h as int <= m as int,
        None => true,
    }
    &&& match l.max_pixels {
        Some(m) => w as int * h as int <= m as int,
        None => true,
    }
}

/// Whether an output buffer of `bytes` bytes satisfies the memory ceiling.
pub open spec fn memory_within(l: Limits, bytes: int) -> bool {
    match l.max_memory_bytes {
        Some(m) => bytes <= m as int,
        None => true,
    }
}

impl Default for Limits {
    /// No ceilings configured.
    fn default() -> (r: Self)
        ensures
            r.max_width is None,
            r.max_height is None,
            r.max_pixels is None,
            r.max_memory_bytes is None,
    {
        Limits { max_width: None, max_height: None, max_pixels: None, max_memory_bytes: None }
    }
}

impl Limits {
    /// Rejects dimensions over any configured width/height/pixel-count
    /// ceiling. A no-op for unset ceilings.
    pub fn check(&self, width: u32, height: u32) -> (r: Result<(), PnmError>)
        ensures
            r is Ok <==> dims_within(*self, width, height),
            r is Err ==> err_kind(r->Err_0) == ErrKind::LimitExceeded,
    {
        if let Some(m) = self.max_width {
            if width as u64 > m {
                return Err(PnmError::LimitExceeded("width exceeds ceiling".to_owned()));
            }
        }
        if let Some(m) = self.max_height {
            if height as u64 > m {
                return Err(PnmError::LimitExceeded("height exceeds ceiling".to_owned()));
            }
        }
        if let Some(m) = self.max_pixels {
            proof {
                assert(width as int * height as int <= 0xffff_ffffu64 * 0xffff_ffffu64)
                    by (nonlinear_arith)
                    requires
                        width <= 0xffff_ffffu64,
                        height <= 0xffff_ffffu64,
                ;
            }
            if width as u64 * height as u64 > m {
                return Err(PnmError::LimitExceeded("pixel count exceeds ceiling".to_owned()));
            }
        }
        Ok(())
    }

    /// Rejects an output byte count over the memory ceiling. A no-op when
    /// that ceiling is unset.
    pub fn check_memory(&self, bytes: u64) -> (r: Result<(), PnmError>)
        ensures
            r is Ok <==> memory_within(*self, bytes as int),
            r is Err ==> err_kind(r->Err_0) == ErrKind::LimitExceeded,
    {
        if let Some(m) = self.max_memory_bytes {
            if bytes > m {
                return Err(PnmError::LimitExceeded("decoded size exceeds memory ceiling".to_owned()));
            }
        }
        Ok(())
    }
}

} // verus!
