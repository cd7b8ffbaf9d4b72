//! The archive aggregate: one tracked channel or playlist, its three video
//! partitions, and the paths its media files live under.

use vstd::prelude::*;
use vstd::string::StringExecFns;
use crate::video::Video;
use crate::video::Videos;

verus! {

/// The tracked state of one channel or playlist: a format version, the
/// tracked URL, and three partitions of items. The path is where the
/// archive loads from and saves to; it is not part of the stored form.
#[derive(Debug, Clone, PartialEq, Eq)]
pub struct Archive {
    /// Directory this archive is tied to on disk.
    pub path: String,
    /// Major version of the stored form, for compatibility checks.
    pub version: u32,
    /// URL of the channel or playlist this archive tracks.
    pub url: String,
    /// Plain videos.
    pub videos: Videos,
    /// Livestreams.
    pub livestreams: Videos,
    /// Shorts.
    pub shorts: Videos,
}

impl Archive {
    pub open spec fn wf(&self) -> bool {
        &&& self.videos.wf()
        &&& self.livestreams.wf()
        &&& self.shorts.wf()
    }

    /// A fresh in-memory archive at the compiled compatibility version,
    /// with three empty partitions.
    pub fn new(path: String, url: String) -> (r: Archive)
        ensures
            r.wf(),
            r.path == path,
            r.version == crate::VERSION_COMPAT,
            r.url == url,
            r.videos.videos_seq().len() == 0,
            r.livestreams.videos_seq().len() == 0,
            r.shorts.videos_seq().len() == 0,
    {
        Archive {
            path,
            version: crate::version_compat(),
            url,
            videos: Videos::new(),
            livestreams: Videos::new(),
            shorts: Videos::new(),
        }
    }

    /// Which video a cross-partition lookup finds: the partitions are
    /// probed in the fixed order videos, livestreams, shorts.
    pub open spec fn spec_get_video(&self, id: Seq<char>) -> Option<Video> {
        if self.videos.spec_has(id) {
            Some(self.videos.spec_get(id))
        } else if self.livestreams.spec_has(id) {
            Some(self.livestreams.spec_get(id))
        } else if self.shorts.spec_has(id) {
            Some(self.shorts.spec_get(id))
        } else {
            None
        }
    }

    /// Looks an id up across all three partitions, videos first, then
    /// livestreams, then shorts, returning the first match.
    pub fn get_video(&self, id: &str) -> (r: Option<&Video>)
        requires
            self.wf(),
        ensures
            match r {
                None => self.spec_get_video(id@) is None,
                Some(v) => self.spec_get_video(id@) == Some(*v),
            },
    {
        if let Some(v) = self.videos.get(id) {
            return Some(v);
        }
        if let Some(v) = self.livestreams.get(id) {
            return Some(v);
        }
        self.shorts.get(id)
    }

    /// Mutable cross-partition lookup, probing in the same fixed order.
    /// The archive stays well formed as long as the caller leaves the
    /// video's identifier unchanged and the video well formed.
    pub fn get_video_mut(&mut self, id: &str) -> (r: Option<&mut Video>)
        requires
            old(self).wf(),
        ensures
            match r {
                None => *final(self) == *old(self) && old(self).spec_get_video(id@) is None,
                Some(m) => {
                    &&& old(self).spec_get_video(id@) == Some(*m)
                    &&& final(self).path == old(self).path
                    &&& final(self).version == old(self).version
                    &&& final(self).url == old(self).url
                    &&& if old(self).videos.spec_has(id@) {
                        exists|i: int|
                            #![auto]
                            {
                                &&& 0 <= i < old(self).videos.videos_seq().len()
                                &&& old(self).videos.videos_seq()[i].id@ == id@
                                &&& final(self).videos.videos_seq() == old(
                                    self,
                                ).videos.videos_seq().update(i, *final(m))
                                &&& final(self).livestreams == old(self).livestreams
                                &&& final(self).shorts == old(self).shorts
                            }
                    } else if old(self).livestreams.spec_has(id@) {
                        exists|i: int|
                            #![auto]
                            {
                                &&& 0 <= i < old(self).livestreams.videos_seq().len()
                                &&& old(self).livestreams.videos_seq()[i].id@ == id@
                                &&& final(self).livestreams.videos_seq() == old(
                                    self,
                                ).livestreams.videos_seq().update(i, *final(m))
                                &&& final(self).videos == old(self).videos
                                &&& final(self).shorts == old(self).shorts
                            }
                    } else {
                        exists|i: int|
                            #![auto]
                            {
                                &&& 0 <= i < old(self).shorts.videos_seq().len()
                                &&& old(self).shorts.videos_seq()[i].id@ == id@
                                &&& final(self).shorts.videos_seq() == old(
                                    self,
                                ).shorts.videos_seq().update(i, *final(m))
                                &&& final(self).videos == old(self).videos
                                &&& final(self).livestreams == old(self).livestreams
                            }
                    }
                },
            },
    {
        if self.videos.contains_key(id) {
            return self.videos.get_mut(id);
        }
        if self.livestreams.contains_key(id) {
            return self.livestreams.get_mut(id);
        }
        self.shorts.get_mut(id)
    }

    /// The two file paths a downloaded copy of the video may live under,
    /// in the order they are probed: `webm` first, then `mp4`, both under
    /// the `videos` subdirectory. A collaborator checks which one exists.
    pub fn path_video(&self, id: &str) -> (r: (String, String))
        ensures
            r.0@ == self.path@ + "/videos/"@ + id@ + ".webm"@,
            r.1@ == self.path@ + "/videos/"@ + id@ + ".mp4"@,
    {
        let mut webm = String::new();
        webm.append(self.path.as_str());
        webm.append("/videos/");
        webm.append(id);
        webm.append(".webm");
        let mut mp4 = String::new();
        mp4.append(self.path.as_str());
        mp4.append("/videos/");
        mp4.append(id);
        mp4.append(".mp4");
        proof {
            assert(webm@ =~= self.path@ + "/videos/"@ + id@ + ".webm"@);
            assert(mp4@ =~= self.path@ + "/videos/"@ + id@ + ".mp4"@);
        }
        (webm, mp4)
    }

    /// The file path a thumbnail with the given hash is expected under.
    /// A collaborator checks whether it exists.
    pub fn path_image(&self, hash: &str) -> (r: String)
        ensures
            r@ == self.path@ + "/thumbnails/"@ + hash@ + ".webp"@,
    {
        let mut p = String::new();
        p.append(self.path.as_str());
        p.append("/thumbnails/");
        p.append(hash);
        p.append(".webp");
        proof {
            assert(p@ =~= self.path@ + "/thumbnails/"@ + hash@ + ".webp"@);
        }
        p
    }

    /// Replaces the path the archive is tied to, leaving the data alone.
    pub fn set_path(&mut self, path: String)
        ensures
            final(self).path == path,
            final(self).version == old(self).version,
            final(self).url == old(self).url,
            final(self).videos == old(self).videos,
            final(self).livestreams == old(self).livestreams,
            final(self).shorts == old(self).shorts,
    {
        self.path = path;
    }
}

} // verus!
