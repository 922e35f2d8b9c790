//! State of the graphical front end: the image chosen for encoding and the
//! output volume.
use vstd::prelude::*;

verus! {

/// Volume the front end starts with, in percent.
pub const DEFAULT_VOLUME: usize = 50;

/// What the graphical front end remembers between frames.
pub struct RSSTV {
    /// Path of the image to encode, once one has been dropped on the window.
    pub image_path: Option<String>,
    /// Output volume in percent, 0 to 100.
    pub volume: usize,
}

impl Default for RSSTV {
    fn default() -> (r: Self)
        ensures
            r.image_path is None,
            r.volume == DEFAULT_VOLUME,
    {
        RSSTV { image_path: None, volume: DEFAULT_VOLUME }
    }
}

impl RSSTV {
    /// Take note of the files dropped on the window during a frame: the last
    /// one becomes the image to encode. Nothing changes when none was dropped.
    pub fn take_dropped(&mut self, paths: &Vec<String>)
        ensures
            final(self).volume == old(self).volume,
            paths@.len() == 0 ==> final(self).image_path == old(self).image_path,
            paths@.len() > 0 ==> final(self).image_path == Some(paths@.last()),
    {
        if paths.len() > 0 {
            self.image_path = Some(paths[paths.len() - 1].clone());
        }
    }
}

} // verus!
