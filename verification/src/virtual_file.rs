//! The line cursor: a lazily materialized, navigable sequence of logical
//! lines over the chunk cache.
//!
//! The cursor keeps a window: the parsed lines of a contiguous run of
//! chunks. Seeking into the window is free; seeking to the chunk just after
//! or before it splices the new chunk's lines onto the window, stitching the
//! boundary fragments into one logical line; any other seek starts a fresh
//! window. Line mutations edit the window and are written back, re-chunked,
//! by `flush_all`.

use vstd::prelude::*;
use crate::lines::{
    LoadedLine, NL, join_bytes, joined_bytes, lines_of, pieces_have_no_nl, split_bytes,
    lemma_join_push, lemma_join_update_last, lemma_join_stitch, lemma_join_drop_last_empty,
    lemma_lines_of_joined, lemma_split_join, lemma_split_prefix_stable,
};
use crate::memstore::{BufferError, Chunk, LoadStore, Memstore, imin, imax, sat_inc};

verus! {

/// The byte contents of a line sequence.
pub open spec fn lines_view(s: Seq<LoadedLine>) -> Seq<Seq<u8>> {
    Seq::new(s.len(), |i: int| s[i].bytes@)
}

pub proof fn lemma_lines_view_push(s: Seq<LoadedLine>, l: LoadedLine)
    ensures
        lines_view(s.push(l)) =~= lines_view(s).push(l.bytes@),
{
    assert forall|t: int| 0 <= t < s.len() + 1 implies lines_view(s.push(l))[t] == lines_view(
        s,
    ).push(l.bytes@)[t] by {
        assert(lines_view(s.push(l))[t] == s.push(l)[t].bytes@);
        if t < s.len() {
            assert(s.push(l)[t] == s[t]);
            assert(lines_view(s)[t] == s[t].bytes@);
        } else {
            assert(s.push(l)[t] == l);
        }
    }
}

/// The materialized lines of the chunks currently being traversed.
pub struct Window {
    /// The logical lines of the covered region, in order.
    pub lines: Vec<LoadedLine>,
    /// First chunk covered.
    pub lo_chunk: u64,
    /// Last chunk covered.
    pub hi_chunk: u64,
    /// Whether the window is known to reach the end of the file.
    pub at_eof: bool,
    /// Whether the covered region ends with a terminator (meaningful only
    /// at the end of the file; elsewhere the trailing fragment carries the
    /// open line).
    pub trailing: bool,
}

impl Window {
    /// First byte offset covered.
    pub open spec fn lo_off(&self, cs: int) -> int {
        self.lo_chunk as int * cs
    }

    /// One past the last byte offset covered (before clipping to the file).
    pub open spec fn hi_raw(&self, cs: int) -> int {
        (self.hi_chunk as int + 1) * cs
    }

    /// The bytes of the covered region, as represented by the lines.
    pub open spec fn wbytes(&self) -> Seq<u8> {
        joined_bytes(lines_view(self.lines@), self.trailing)
    }

    /// The completeness marker of each line follows from its position: a
    /// line is complete unless it is the first line of a window that does
    /// not start at the file start, or the last line of a window that is
    /// not known to reach the file end.
    pub open spec fn flags_ok(&self) -> bool {
        forall|i: int|
            0 <= i < self.lines@.len() ==> (#[trigger] self.lines@[i]).complete == ((i > 0
                || self.lo_chunk == 0) && (i + 1 < self.lines@.len() || self.at_eof))
    }

    /// Structural well-formedness of the window.
    pub open spec fn shape_ok(&self) -> bool {
        &&& self.lo_chunk <= self.hi_chunk
        &&& pieces_have_no_nl(lines_view(self.lines@))
        &&& (self.lines@.len() == 0 ==> !self.trailing)
        &&& (self.trailing ==> self.at_eof)
        &&& (self.at_eof && !self.trailing && self.lines@.len() > 0 ==> self.lines@[self.lines@.len()
            - 1].bytes@.len() > 0)
        &&& self.flags_ok()
    }
}

/// The line cursor: a virtual file read and edited as logical lines.
pub struct VirtualFile<L: LoadStore> {
    pub chunk_size: u64,
    pub line_index_in_window: usize,
    pub window: Option<Window>,
    pub window_dirty: bool,
    pub memstore: Memstore<L>,
}

impl<L: LoadStore> VirtualFile<L> {
    pub open spec fn cs(&self) -> int {
        self.chunk_size as int
    }

    /// The backing store's persisted bytes.
    pub open spec fn bs(&self) -> Seq<u8> {
        self.memstore.bs()
    }

    /// The cursor's invariant: the cache is well formed; the window, when
    /// present, is shaped correctly and, when unedited, holds exactly the
    /// persisted bytes of its region; dirty cache chunks exist only while
    /// the window is edited, and only under it; a cached `Empty` chunk
    /// really lies beyond the persisted extent.
    pub open spec fn wf(&self) -> bool {
        &&& self.memstore.wf()
        &&& self.chunk_size == self.memstore.chunk_size
        &&& match self.window {
            Some(w) => {
                &&& w.shape_ok()
                &&& w.hi_raw(self.cs()) <= u64::MAX
                &&& (w.at_eof ==> w.hi_raw(self.cs()) >= self.bs().len())
                &&& (!self.window_dirty ==> w.wbytes() == self.bs().subrange(
                    imin(w.lo_off(self.cs()), self.bs().len() as int),
                    imin(w.hi_raw(self.cs()), self.bs().len() as int),
                ))
                &&& ((w.lines@.len() > 0 || self.window_dirty) ==> w.lo_off(self.cs())
                    <= self.bs().len())
                &&& forall|k: u64| #![trigger self.memstore.chunk_at(k)]
                    self.memstore.cached(k) && self.memstore.chunk_at(k).is_dirty()
                        ==> w.lo_chunk <= k <= w.hi_chunk
                &&& forall|k: u64|
                    w.lo_chunk <= k <= w.hi_chunk ==> #[trigger] self.memstore.cached(k)
            },
            None => !self.window_dirty,
        }
        &&& (!self.window_dirty ==> forall|t: int|
            0 <= t < self.memstore.chunks@.len() ==> !(
            #[trigger] self.memstore.chunks@[t]).1.is_dirty())
        &&& forall|k: u64| #![trigger self.memstore.chunk_at(k)]
            self.memstore.cached(k) && self.memstore.chunk_at(k) is Empty ==> k as int * self.cs()
                >= self.memstore.content_len()
    }

    /// The logical file the cursor presents: the persisted bytes, with the
    /// window's region replaced by what the window's lines represent.
    pub open spec fn file(&self) -> Seq<u8> {
        match self.window {
            None => self.bs(),
            Some(w) => self.bs().subrange(0, imin(w.lo_off(self.cs()), self.bs().len() as int))
                + w.wbytes() + self.bs().subrange(
                imin(w.hi_raw(self.cs()), self.bs().len() as int),
                self.bs().len() as int,
            ),
        }
    }

    /// The window's byte offsets are ordered and nonnegative.
    pub proof fn lemma_window_offsets(w: &Window, cs: int)
        requires
            cs > 0,
            w.lo_chunk <= w.hi_chunk,
        ensures
            0 <= w.lo_off(cs),
            w.lo_off(cs) + cs <= w.hi_raw(cs),
    {
        assert(0 <= w.lo_chunk as int * cs) by (nonlinear_arith)
            requires
                cs > 0,
                w.lo_chunk as int >= 0,
        ;
        assert(w.lo_chunk as int * cs + cs <= (w.hi_chunk as int + 1) * cs) by (nonlinear_arith)
            requires
                cs > 0,
                w.lo_chunk as int <= w.hi_chunk as int,
        ;
    }

    /// With no unflushed edit the logical file is the persisted bytes.
    pub proof fn lemma_clean_file(&self)
        requires
            self.wf(),
            !self.window_dirty,
        ensures
            self.file() == self.bs(),
    {
        match self.window {
            None => {},
            Some(w) => {
                Self::lemma_window_offsets(&w, self.cs());
                assert(self.file() =~= self.bs());
            },
        }
    }

    /// A fresh cursor over a backing store; nothing is loaded yet.
    pub fn new(chunk_size: u64, load_store: L) -> (r: VirtualFile<L>)
        requires
            chunk_size > 0,
            load_store.chunk_size_spec() == chunk_size,
        ensures
            r.wf(),
            r.window is None,
            !r.window_dirty,
            r.line_index_in_window == 0,
            r.chunk_size == chunk_size,
            r.file() == load_store.contents(),
            r.memstore.chunks@.len() == 0,
            forall|k: u64| !r.memstore.cached(k),
            r.memstore.load_store == load_store,
    {
        let ms = Memstore::new(chunk_size, load_store);
        let r = VirtualFile {
            chunk_size,
            line_index_in_window: 0,
            window: None,
            window_dirty: false,
            memstore: ms,
        };
        proof {
            assert forall|k: u64| #![trigger r.memstore.chunk_at(k)]
                r.memstore.cached(k) && r.memstore.chunk_at(k) is Empty implies k as int * r.cs()
                >= r.bs().len() by {
                assert(!r.memstore.cached(k));
            }
        }
        r
    }

    /// Split one chunk's bytes into line pieces. All pieces but the last
    /// are terminator-complete; the run after the last terminator is a
    /// fragment pending continuation, unless the chunk is the file's last,
    /// where it is the complete final line (or, when the chunk ends with a
    /// terminator, no line at all: the returned marker records the
    /// terminator instead).
    fn parse_chunk(data: &Vec<u8>, at_eof: bool) -> (r: (Vec<LoadedLine>, bool))
        ensures
            pieces_have_no_nl(lines_view(r.0@)),
            joined_bytes(lines_view(r.0@), r.1) == data@,
            r.0@.len() == 0 ==> !r.1,
            r.1 ==> at_eof,
            !at_eof ==> !r.1 && r.0@.len() >= 1,
            at_eof && !r.1 && r.0@.len() > 0 ==> r.0@[r.0@.len() - 1].bytes@.len() > 0,
            forall|i: int|
                0 <= i < r.0@.len() ==> (#[trigger] r.0@[i]).complete == (i + 1 < r.0@.len()
                    || at_eof),
    {
        let mut lines: Vec<LoadedLine> = Vec::new();
        let mut cur: Vec<u8> = Vec::new();
        let mut i: usize = 0;
        proof {
            assert(lines_view(lines@).push(cur@) =~~= seq![Seq::<u8>::empty()]);
            assert(data@.take(0) =~= Seq::<u8>::empty());
        }
        while i < data.len()
            invariant
                i <= data@.len(),
                join_bytes(lines_view(lines@).push(cur@)) == data@.take(i as int),
                pieces_have_no_nl(lines_view(lines@)),
                !cur@.contains(NL),
                forall|t: int| 0 <= t < lines@.len() ==> (#[trigger] lines@[t]).complete,
            decreases data@.len() - i,
        {
            let b = data[i];
            let ghost lv = lines_view(lines@);
            let ghost cv = cur@;
            if b == NL {
                let ghost lpre = lines@;
                lines.push(LoadedLine { bytes: cur, complete: true });
                cur = Vec::new();
                proof {
                    assert(lines@ == lpre.push(LoadedLine { bytes: lines@.last().bytes, complete: true }));
                    lemma_lines_view_push(lpre, lines@.last());
                    assert(lines_view(lines@) =~~= lv.push(cv));
                    lemma_join_push(lv.push(cv), Seq::<u8>::empty());
                    assert(lines_view(lines@).push(cur@) =~~= lv.push(cv).push(Seq::<u8>::empty()));
                    assert(join_bytes(lv.push(cv).push(Seq::<u8>::empty())) =~= join_bytes(
                        lv.push(cv),
                    ) + seq![NL] + Seq::<u8>::empty());
                    assert(data@.take(i as int + 1) =~= data@.take(i as int).push(NL));
                    assert(join_bytes(lines_view(lines@).push(cur@)) =~= data@.take(i as int + 1));
                }
            } else {
                cur.push(b);
                proof {
                    assert(lines_view(lines@) =~~= lv);
                    assert(cur@ =~= cv.push(b));
                    assert(lv.push(cv.push(b)) =~~= lv.push(cv).update(
                        lv.push(cv).len() - 1,
                        lv.push(cv).last().push(b),
                    ));
                    lemma_join_update_last(lv.push(cv), b);
                    assert(data@.take(i as int + 1) =~= data@.take(i as int).push(b));
                    assert(!cur@.contains(NL)) by {
                        if cur@.contains(NL) {
                            let t = choose|t: int| 0 <= t < cur@.len() && cur@[t] == NL;
                            assert(t < cv.len() ==> cv[t] == NL);
                        }
                    }
                    assert(join_bytes(lines_view(lines@).push(cur@)) =~= data@.take(i as int + 1));
                }
            }
            i += 1;
        }
        proof {
            assert(data@.take(data@.len() as int) =~= data@);
        }
        if !at_eof || cur.len() > 0 {
            let frag_complete = at_eof;
            let ghost lv = lines_view(lines@);
            let ghost cv = cur@;
            let ghost lpre = lines@;
            lines.push(LoadedLine { bytes: cur, complete: frag_complete });
            proof {
                lemma_lines_view_push(lpre, lines@.last());
                assert(lines@ == lpre.push(lines@.last()));
                assert(lines_view(lines@) =~~= lv.push(cv));
                assert(joined_bytes(lines_view(lines@), false) =~= join_bytes(lines_view(lines@)));
            }
            (lines, false)
        } else if lines.len() > 0 {
            // the chunk is the file's last and ends with a terminator: no
            // trailing fragment, the terminator is recorded instead
            proof {
                let lv = lines_view(lines@);
                lemma_join_push(lv, cur@);
                assert(lv.len() >= 1);
                assert(join_bytes(lv) + seq![NL] + cur@ =~= join_bytes(lv) + seq![NL]);
                assert(joined_bytes(lv, true) =~= data@);
            }
            (lines, true)
        } else {
            proof {
                let lv = lines_view(lines@);
                assert(lv.len() == 0);
                assert(lv.push(cur@) =~~= seq![cur@]);
                assert(join_bytes(seq![cur@]) == cur@);
                assert(cur@ =~= Seq::<u8>::empty()) by {
                    assert(join_bytes(lv.push(cur@)) == data@);
                }
                assert(joined_bytes(lv, false) =~= data@);
            }
            (lines, false)
        }
    }
}

} // verus!

verus! {

impl<L: LoadStore> VirtualFile<L> {
    /// Start a fresh window at `target`, discarding the current one. Only
    /// called with no unflushed edit.
    fn load_fresh(&mut self, target: u64) -> (r: Result<(), BufferError>)
        requires
            old(self).wf(),
            !old(self).window_dirty,
        ensures
            final(self).wf(),
            final(self).chunk_size == old(self).chunk_size,
            final(self).file() == old(self).file(),
            final(self).bs() == old(self).bs(),
            !final(self).window_dirty,
            final(self).memstore.load_store.store_count() == old(
                self,
            ).memstore.load_store.store_count(),
            r is Ok ==> match final(self).window {
                Some(w) => w.lo_chunk == target && w.hi_chunk == target
                    && final(self).line_index_in_window == 0,
                None => false,
            },
            r is Err ==> final(self).window == old(self).window && final(self).line_index_in_window == old(self).line_index_in_window,
            final(self).memstore.load_store.load_count() == old(
                self,
            ).memstore.load_store.load_count() || final(self).memstore.load_store.load_count()
                == sat_inc(old(self).memstore.load_store.load_count()),
    {
        let ghost pre = *old(self);
        let cs = self.chunk_size;
        let hi_end = match target.checked_add(1) {
            Some(t1) => match t1.checked_mul(cs) {
                Some(e) => e,
                None => {
                    return Err(BufferError::Load { chunk_index: target });
                },
            },
            None => {
                return Err(BufferError::Load { chunk_index: target });
            },
        };
        let ghost koff = target as int * pre.cs();
        let ghost blen = pre.bs().len() as int;
        let parsed: Option<(Vec<LoadedLine>, bool, bool)> = match self.memstore.get(target) {
            Err(e) => {
                proof {
                    pre.lemma_clean_file();
                    self.lemma_clean_file();
                }
                return Err(e);
            },
            Ok(c) => {
                proof {
                    if pre.memstore.cached(target) {
                        let t = crate::memstore::sk_idx(pre.memstore.chunks@, target);
                        crate::memstore::lemma_sk_at_index(pre.memstore.chunks@, t, target);
                        assert(pre.memstore.entry_wf(pre.memstore.chunks@[t]));
                        assert(!pre.memstore.chunks@[t].1.is_dirty());
                    }
                }
                match c {
                    Chunk::Loaded { data, need_store } => {
                        proof {
                            assert(data@ == pre.bs().subrange(
                                koff,
                                imin(koff + pre.cs(), blen),
                            ));
                            assert(data@.len() >= 1);
                            assert(koff < blen);
                        }
                        let eof = (data.len() as u64) < cs;
                        let (q, tr) = Self::parse_chunk(data, eof);
                        Some((q, tr, eof))
                    },
                    Chunk::Empty => {
                        proof {
                            assert(koff >= blen);
                        }
                        None
                    },
                }
            },
        };
        let ghost mid = *self;
        let ghost pv: Option<(Seq<LoadedLine>, bool, bool)> = match parsed {
            Some((ref q, tr, eof)) => Some((q@, tr, eof)),
            None => None,
        };
        match parsed {
            Some((mut q, tr, eof)) => {
                let ghost qv0 = lines_view(q@);
                if target > 0 && q.len() > 0 {
                    let flen = q.len();
                    let first = &mut q[0];
                    first.complete = false;
                    proof {
                        assert(lines_view(q@) =~~= qv0);
                    }
                }
                self.window = Some(
                    Window { lines: q, lo_chunk: target, hi_chunk: target, at_eof: eof, trailing: tr },
                );
                self.line_index_in_window = 0;
            },
            None => {
                self.window = Some(
                    Window {
                        lines: Vec::new(),
                        lo_chunk: target,
                        hi_chunk: target,
                        at_eof: true,
                        trailing: false,
                    },
                );
                self.line_index_in_window = 0;
            },
        }
        proof {
            let w = self.window->Some_0;
            let d = match pv {
                Some((q, tr, eof)) => joined_bytes(lines_view(q), tr),
                None => Seq::<u8>::empty(),
            };
            assert(w.wbytes() == d) by {
                match pv {
                    Some((q, tr, eof)) => {
                        assert(lines_view(w.lines@) =~~= lines_view(q));
                    },
                    None => {
                        assert(lines_view(w.lines@) =~~= Seq::<Seq<u8>>::empty());
                    },
                }
            }
            match pv {
                Some((q, tr, eof)) => {
                    assert(w.wbytes() == pre.bs().subrange(koff, imin(koff + pre.cs(), blen)));
                    if eof {
                        assert(imin(koff + pre.cs(), blen) - koff < pre.cs());
                        assert(imin(koff + pre.cs(), blen) == blen);
                        assert(w.hi_raw(self.cs()) == koff + pre.cs()) by (nonlinear_arith)
                            requires
                                w.hi_raw(self.cs()) == (w.hi_chunk as int + 1) * pre.cs(),
                                koff == w.hi_chunk as int * pre.cs(),
                        ;
                        assert(w.hi_raw(self.cs()) >= blen);
                    }
                    assert(w.wbytes() == self.bs().subrange(
                        imin(w.lo_off(self.cs()), blen),
                        imin(w.hi_raw(self.cs()), blen),
                    )) by {
                        assert(imin(w.lo_off(self.cs()), blen) == koff);
                        assert(w.hi_raw(self.cs()) == koff + pre.cs()) by (nonlinear_arith)
                            requires
                                w.hi_raw(self.cs()) == (w.hi_chunk as int + 1) * pre.cs(),
                                koff == w.hi_chunk as int * pre.cs(),
                        ;
                    }
                    assert(w.flags_ok()) by {
                        assert forall|i: int| 0 <= i < w.lines@.len() implies (
                        #[trigger] w.lines@[i]).complete == ((i > 0 || w.lo_chunk == 0) && (i + 1
                            < w.lines@.len() || w.at_eof)) by {}
                    }
                },
                None => {
                    assert(koff >= blen);
                    assert(w.hi_raw(self.cs()) == koff + pre.cs()) by (nonlinear_arith)
                        requires
                            w.hi_raw(self.cs()) == (w.hi_chunk as int + 1) * pre.cs(),
                            koff == w.hi_chunk as int * pre.cs(),
                    ;
                    assert(w.hi_raw(self.cs()) >= blen);
                    assert(w.wbytes() =~= self.bs().subrange(
                        imin(w.lo_off(self.cs()), blen),
                        imin(w.hi_raw(self.cs()), blen),
                    )) by {
                        assert(imin(w.lo_off(self.cs()), blen) == blen);
                        assert(w.hi_raw(self.cs()) >= w.lo_off(self.cs())) by {
                            Self::lemma_window_offsets(&w, self.cs());
                        }
                        assert(imin(w.hi_raw(self.cs()), blen) == blen);
                    }
                },
            }
            assert forall|t: int|
                0 <= t < self.memstore.chunks@.len() implies !(
            #[trigger] self.memstore.chunks@[t]).1.is_dirty() by {
                if t < pre.memstore.chunks@.len() {
                    assert(!pre.memstore.chunks@[t].1.is_dirty());
                } else {
                    assert(self.memstore.chunks@[t] == (target, mid.memstore.chunk_at(target)));
                }
            }
            assert forall|k: u64| #![trigger self.memstore.chunk_at(k)]
                self.memstore.cached(k) && self.memstore.chunk_at(k).is_dirty() implies w.lo_chunk
                <= k <= w.hi_chunk by {
                let t = crate::memstore::sk_idx(self.memstore.chunks@, k);
                crate::memstore::lemma_sk_at_index(self.memstore.chunks@, t, k);
                assert(!self.memstore.chunks@[t].1.is_dirty());
            }
            assert(self.memstore.content_len() == self.bs().len()) by {
                self.memstore.lemma_clean_content_len();
            }
            assert(pre.memstore.content_len() == pre.bs().len()) by {
                pre.memstore.lemma_clean_content_len();
            }
            assert forall|k: u64| #![trigger self.memstore.chunk_at(k)]
                self.memstore.cached(k) && self.memstore.chunk_at(k) is Empty implies k as int
                * self.cs() >= self.memstore.content_len() by {
                if pre.memstore.cached(k) {
                    assert(self.memstore.chunk_at(k) == pre.memstore.chunk_at(k));
                    assert(pre.memstore.chunk_at(k) is Empty ==> k as int * pre.cs()
                        >= pre.memstore.content_len());
                } else {
                    assert(k == target);
                }
            }
            assert forall|k: u64| w.lo_chunk <= k <= w.hi_chunk implies #[trigger]
            self.memstore.cached(k) by {
                assert(k == target);
            }
            assert(self.wf());
            pre.lemma_clean_file();
            self.lemma_clean_file();
        }
        Ok(())
    }

    /// Move the cursor to the line window containing this byte offset. A
    /// seek inside the current window changes nothing; a seek to the chunk
    /// just after the window splices it on, keeping the line position; any
    /// other seek flushes pending edits and starts a fresh window on the
    /// target chunk.
    pub fn seek(&mut self, offset: u64) -> (r: Result<(), BufferError>)
        requires
            old(self).wf(),
        ensures
            final(self).wf(),
            final(self).chunk_size == old(self).chunk_size,
            old(self).file().len() >= old(self).memstore.content_len() ==> final(self).file()
                == old(self).file(),
            !old(self).window_dirty ==> final(self).file() == old(self).file() && final(self).bs() == old(self).bs() && final(self).memstore.load_store.store_count() == old(
                self,
            ).memstore.load_store.store_count() && !final(self).window_dirty,
            (match old(self).window {
                Some(w) => w.lo_chunk <= offset as int / old(self).cs() && offset as int / old(
                    self,
                ).cs() <= w.hi_chunk,
                None => false,
            }) ==> *final(self) == *old(self) && r is Ok,
            r is Ok ==> match final(self).window {
                Some(w) => ({
                    let t = offset as int / old(self).cs();
                    w.lo_chunk <= t && t <= w.hi_chunk
                }),
                None => false,
            },
            (match old(self).window {
                Some(w) => offset as int / old(self).cs() == w.hi_chunk as int + 1,
                None => false,
            }) && r is Ok ==> ({
                let w1 = old(self).window->Some_0;
                let w2 = final(self).window->Some_0;
                &&& final(self).window is Some
                &&& w2.lo_chunk == w1.lo_chunk
                &&& w2.hi_chunk as int == w1.hi_chunk + 1
                &&& final(self).line_index_in_window == old(self).line_index_in_window
                &&& (forall|j: int|
                    0 <= j < w1.lines@.len() - 1 ==> #[trigger] w2.lines@[j] == w1.lines@[j])
                &&& w2.lines@.len() >= w1.lines@.len() - 1
            }),
            (match old(self).window {
                Some(w) => w.lo_chunk >= 1 && offset as int / old(self).cs() == w.lo_chunk as int
                    - 1 && w.lines@.len() > 0,
                None => false,
            }) && r is Ok ==> ({
                let w1 = old(self).window->Some_0;
                let w2 = final(self).window->Some_0;
                &&& final(self).window is Some
                &&& w2.lo_chunk as int == w1.lo_chunk as int - 1
                &&& w2.hi_chunk == w1.hi_chunk
                &&& w2.lines@.len() >= w1.lines@.len()
                &&& final(self).line_index_in_window as int == old(
                    self,
                ).line_index_in_window as int + (w2.lines@.len() - w1.lines@.len())
                &&& (forall|j: int|
                    1 <= j < w1.lines@.len() ==> #[trigger] w2.lines@[j + (w2.lines@.len()
                        - w1.lines@.len())] == w1.lines@[j])
            }),
            (match old(self).window {
                Some(w) => !(w.lo_chunk <= offset as int / old(self).cs() && offset as int / old(
                    self,
                ).cs() <= w.hi_chunk) && offset as int / old(self).cs() != w.hi_chunk as int + 1
                    && !(w.lo_chunk >= 1 && offset as int / old(self).cs() == w.lo_chunk as int
                    - 1 && w.lines@.len() > 0),
                None => true,
            }) && r is Ok ==> match final(self).window {
                Some(w2) => w2.lo_chunk as int == offset as int / old(self).cs()
                    && w2.hi_chunk as int == offset as int / old(self).cs() && final(self).line_index_in_window == 0,
                None => false,
            },
            r is Err && !old(self).window_dirty ==> final(self).window == old(self).window
                && final(self).line_index_in_window == old(self).line_index_in_window,
            !old(self).window_dirty ==> final(self).memstore.load_store.load_count() == old(
                self,
            ).memstore.load_store.load_count() || final(self).memstore.load_store.load_count()
                == sat_inc(old(self).memstore.load_store.load_count()),
    {
        let target = offset / self.chunk_size;
        proof {
            crate::memstore::lemma_chunk_of(offset as int, self.cs());
        }
        let covered = match &self.window {
            Some(w) => w.lo_chunk <= target && target <= w.hi_chunk,
            None => false,
        };
        if covered {
            proof {
                let w = self.window->Some_0;
                assert(w.lo_chunk as int * self.cs() <= target as int * self.cs()) by (
                nonlinear_arith)
                    requires
                        w.lo_chunk as int <= target as int,
                        self.cs() > 0,
                ;
                assert((target as int + 1) * self.cs() <= (w.hi_chunk as int + 1) * self.cs())
                    by (nonlinear_arith)
                    requires
                        target as int <= w.hi_chunk as int,
                        self.cs() > 0,
                ;
            }
            return Ok(());
        }
        let is_next = match &self.window {
            Some(w) => w.hi_chunk < u64::MAX && target == w.hi_chunk + 1,
            None => false,
        };
        if is_next {
            let res = self.extend_forward();
            match res {
                Ok(_) => {
                    proof {
                        let w = self.window->Some_0;
                        assert(w.lo_chunk as int * self.cs() <= target as int * self.cs()) by (
                        nonlinear_arith)
                            requires
                                w.lo_chunk as int <= target as int,
                                self.cs() > 0,
                        ;
                    }
                    return Ok(());
                },
                Err(e) => {
                    return Err(e);
                },
            }
        }
        let is_prev = match &self.window {
            Some(w) => w.lo_chunk >= 1 && target == w.lo_chunk - 1 && w.lines.len() > 0,
            None => false,
        };
        if is_prev {
            let res = self.extend_backward();
            match res {
                Ok(_) => {
                    proof {
                        let w = self.window->Some_0;
                        assert(w.lo_chunk == target);
                    }
                    return Ok(());
                },
                Err(e) => {
                    return Err(e);
                },
            }
        }
        let res = self.flush_all();
        match res {
            Ok(_) => {},
            Err(e) => {
                return Err(e);
            },
        }
        let r2 = self.load_fresh(target);
        proof {
            if r2 is Ok {
                let w = self.window->Some_0;
                assert(w.lo_chunk == target && w.hi_chunk == target);
            }
        }
        r2
    }
}

} // verus!

verus! {

impl<L: LoadStore> VirtualFile<L> {
    /// Extend the window by the chunk just after it, stitching the
    /// window's trailing fragment to the new chunk's first piece so that a
    /// line whose bytes straddle the chunk boundary becomes one logical
    /// line. Loading the chunk past the end of the file marks the window
    /// as reaching the end and adds nothing.
    #[verifier::rlimit(100)]
    fn extend_forward(&mut self) -> (r: Result<(), BufferError>)
        requires
            old(self).wf(),
            old(self).window is Some,
        ensures
            final(self).wf(),
            final(self).chunk_size == old(self).chunk_size,
            final(self).file() == old(self).file(),
            final(self).bs() == old(self).bs(),
            final(self).memstore.content_len() == old(self).memstore.content_len(),
            final(self).window_dirty == old(self).window_dirty,
            final(self).memstore.load_store.store_count() == old(
                self,
            ).memstore.load_store.store_count(),
            final(self).memstore.load_store.load_count() == old(
                self,
            ).memstore.load_store.load_count() || final(self).memstore.load_store.load_count()
                == sat_inc(old(self).memstore.load_store.load_count()),
            final(self).line_index_in_window == old(self).line_index_in_window,
            final(self).window is Some,
            ({
                let w1 = old(self).window->Some_0;
                let w2 = final(self).window->Some_0;
                &&& (r is Ok ==> w2.lo_chunk == w1.lo_chunk && w2.hi_chunk as int == w1.hi_chunk
                    + 1)
                &&& (r is Err ==> w2 == w1)
                &&& (forall|j: int|
                    0 <= j < w1.lines@.len() - 1 ==> #[trigger] w2.lines@[j] == w1.lines@[j])
                &&& w2.lines@.len() >= w1.lines@.len() - 1
                &&& (r is Ok && !w2.at_eof ==> (w1.hi_chunk as int + 1) * old(self).cs()
                    + old(self).cs() <= old(self).bs().len())
            }),
    {
        let ghost pre = *old(self);
        let ghost w1 = pre.window->Some_0;
        let cs = self.chunk_size;
        let (lo, hi) = match &self.window {
            Some(w) => (w.lo_chunk, w.hi_chunk),
            None => unreached(),
        };
        proof {
            assert(hi as int + 1 <= (hi as int + 1) * pre.cs()) by (nonlinear_arith)
                requires
                    pre.cs() >= 1,
                    hi as int >= 0,
            ;
        }
        let next = hi + 1;
        let _new_end = match next.checked_add(1) {
            Some(t1) => match t1.checked_mul(cs) {
                Some(e) => e,
                None => {
                    return Err(BufferError::Load { chunk_index: next });
                },
            },
            None => {
                return Err(BufferError::Load { chunk_index: next });
            },
        };
        let ghost koff2 = next as int * pre.cs();
        let ghost blen = pre.bs().len() as int;
        proof {
            assert(koff2 == w1.hi_raw(pre.cs()));
        }
        let parsed: Option<(Vec<LoadedLine>, bool, bool)> = match self.memstore.get(next) {
            Err(e) => {
                return Err(e);
            },
            Ok(c) => {
                proof {
                    if pre.memstore.cached(next) {
                        let t = crate::memstore::sk_idx(pre.memstore.chunks@, next);
                        crate::memstore::lemma_sk_at_index(pre.memstore.chunks@, t, next);
                        assert(pre.memstore.entry_wf(pre.memstore.chunks@[t]));
                        assert(!pre.memstore.chunks@[t].1.is_dirty()) by {
                            if pre.memstore.chunks@[t].1.is_dirty() {
                                assert(pre.memstore.chunk_at(next).is_dirty());
                                assert(w1.lo_chunk <= next <= w1.hi_chunk);
                            }
                        }
                    }
                }
                match c {
                    Chunk::Loaded { data, need_store } => {
                        proof {
                            assert(data@ == pre.bs().subrange(
                                koff2,
                                imin(koff2 + pre.cs(), blen),
                            ));
                            assert(data@.len() >= 1);
                            assert(koff2 < blen);
                        }
                        let eof = (data.len() as u64) < cs;
                        let (q, tr) = Self::parse_chunk(data, eof);
                        Some((q, tr, eof))
                    },
                    Chunk::Empty => {
                        proof {
                            assert(koff2 >= blen);
                        }
                        None
                    },
                }
            },
        };
        let ghost mid = *self;
        match parsed {
            None => {
                // the file ends before this chunk: finalize the window
                match &mut self.window {
                    Some(w) => {
                        w.hi_chunk = next;
                        w.at_eof = true;
                        let n = w.lines.len();
                        if !w.trailing && n > 0 {
                            let lastlen = w.lines[n - 1].bytes.len();
                            if lastlen == 0 {
                                w.lines.pop();
                                w.trailing = w.lines.len() > 0;
                            } else {
                                let f = (n - 1 > 0) || lo == 0;
                                let e = &mut w.lines[n - 1];
                                e.complete = f;
                            }
                        }
                    },
                    None => {
                        proof {
                            assert(false);
                        }
                    },
                }
                proof {
                    let w2 = self.window->Some_0;
                    assert(pieces_have_no_nl(lines_view(w2.lines@))) by {
                        assert forall|i: int| 0 <= i < lines_view(w2.lines@).len() implies !(
                        #[trigger] lines_view(w2.lines@)[i]).contains(NL) by {
                            assert(lines_view(w2.lines@)[i] == w2.lines@[i].bytes@);
                            assert(w2.lines@[i].bytes@ == w1.lines@[i].bytes@);
                            assert(lines_view(w1.lines@)[i] == w1.lines@[i].bytes@);
                            assert(!lines_view(w1.lines@)[i].contains(NL));
                        }
                    }
                    assert(w2.wbytes() == w1.wbytes()) by {
                        if !w1.trailing && w1.lines@.len() > 0 {
                            if w1.lines@[w1.lines@.len() - 1].bytes@.len() == 0 {
                                lemma_join_drop_last_empty(lines_view(w1.lines@));
                                assert(lines_view(w1.lines@).last().len() == 0);
                                assert(lines_view(w2.lines@) =~~= lines_view(
                                    w1.lines@,
                                ).drop_last());
                                if w1.lines@.len() == 1 {
                                    assert(w2.lines@.len() == 0);
                                    assert(!w2.trailing);
                                    assert(w2.wbytes() =~= Seq::<u8>::empty());
                                    assert(w1.wbytes() =~= Seq::<u8>::empty());
                                } else {
                                    assert(w2.trailing);
                                    assert(w2.wbytes() =~= join_bytes(
                                        lines_view(w1.lines@).drop_last(),
                                    ) + seq![NL]);
                                    assert(w1.wbytes() =~= join_bytes(lines_view(w1.lines@)));
                                }
                            } else {
                                assert(lines_view(w2.lines@) =~~= lines_view(w1.lines@));
                                assert(w2.wbytes() =~= w1.wbytes());
                            }
                        } else {
                            assert(lines_view(w2.lines@) =~~= lines_view(w1.lines@));
                            assert(w2.wbytes() =~= w1.wbytes());
                        }
                    }
                    assert(w2.hi_raw(self.cs()) == koff2 + pre.cs()) by (nonlinear_arith)
                        requires
                            w2.hi_raw(self.cs()) == (w2.hi_chunk as int + 1) * pre.cs(),
                            koff2 == (w1.hi_chunk as int + 1) * pre.cs(),
                            w2.hi_chunk as int == w1.hi_chunk as int + 1,
                    ;
                    assert(w2.hi_raw(self.cs()) >= blen);
                    assert(w2.hi_raw(self.cs()) <= u64::MAX);
                    assert(imin(w2.hi_raw(self.cs()), blen) == blen);
                    assert(imin(w1.hi_raw(pre.cs()), blen) == blen) by {
                        assert(w1.hi_raw(pre.cs()) == koff2);
                    }
                    assert(w2.flags_ok()) by {
                        assert forall|i: int| 0 <= i < w2.lines@.len() implies (
                        #[trigger] w2.lines@[i]).complete == ((i > 0 || w2.lo_chunk == 0) && (i + 1
                            < w2.lines@.len() || w2.at_eof)) by {
                            assert(w1.flags_ok());
                            if i < w1.lines@.len() - 1 {
                                assert(w1.lines@[i].complete == ((i > 0 || w1.lo_chunk == 0) && (i
                                    + 1 < w1.lines@.len() || w1.at_eof)));
                            }
                        }
                    }
                    if !self.window_dirty {
                        assert(w2.wbytes() == self.bs().subrange(
                            imin(w2.lo_off(self.cs()), blen),
                            imin(w2.hi_raw(self.cs()), blen),
                        ));
                    }
                    assert(self.memstore.content_len() == mid.memstore.content_len());
                    assert(mid.memstore.content_len() == pre.memstore.content_len());
                    assert forall|kk: u64| #![trigger self.memstore.chunk_at(kk)]
                        self.memstore.cached(kk) && self.memstore.chunk_at(kk) is Empty implies kk
                        as int * self.cs() >= self.memstore.content_len() by {
                        if pre.memstore.cached(kk) {
                            assert(self.memstore.chunk_at(kk) == pre.memstore.chunk_at(kk));
                        } else {
                            assert(kk == next);
                            assert(kk as int * self.cs() == koff2);
                            assert(pre.memstore.content_len() <= imax(blen, koff2)) by {
                                assert forall|tt: int|
                                    0 <= tt < pre.memstore.chunks@.len() && (
                                    #[trigger] pre.memstore.chunks@[tt]).1.is_dirty() implies
                                    pre.memstore.chunks@[tt].0 <= w1.hi_chunk by {
                                    let kd = pre.memstore.chunks@[tt].0;
                                    crate::memstore::lemma_sk_at_index(
                                        pre.memstore.chunks@,
                                        tt,
                                        kd,
                                    );
                                    assert(pre.memstore.chunk_at(kd).is_dirty());
                                }
                                pre.memstore.lemma_dirty_extent_bound(w1.hi_chunk);
                            }
                        }
                    }
                    assert forall|kk: u64| #![trigger self.memstore.chunk_at(kk)]
                        self.memstore.cached(kk) && self.memstore.chunk_at(kk).is_dirty() implies
                        w2.lo_chunk <= kk <= w2.hi_chunk by {
                        if pre.memstore.cached(kk) {
                            assert(self.memstore.chunk_at(kk) == pre.memstore.chunk_at(kk));
                            assert(w1.lo_chunk <= kk <= w1.hi_chunk);
                        } else {
                            assert(kk == next);
                            assert(!self.memstore.chunk_at(kk).is_dirty());
                        }
                    }
                    assert forall|kk: u64| w2.lo_chunk <= kk <= w2.hi_chunk implies #[trigger]
                    self.memstore.cached(kk) by {
                        if kk <= w1.hi_chunk {
                            assert(self.memstore.cached(kk));
                        } else {
                            assert(kk == next);
                        }
                    }
                    if !self.window_dirty {
                        assert forall|t: int|
                            0 <= t < self.memstore.chunks@.len() implies !(
                        #[trigger] self.memstore.chunks@[t]).1.is_dirty() by {
                            if t < pre.memstore.chunks@.len() {
                                assert(!pre.memstore.chunks@[t].1.is_dirty());
                            } else {
                                assert(self.memstore.chunks@[t] == (
                                    next,
                                    mid.memstore.chunk_at(next),
                                ));
                            }
                        }
                    }
                    assert(self.wf());
                    assert(self.file() =~= pre.file());
                }
                Ok(())
            },
            Some((q, tr2, eof2)) => {
                let res = self.extend_splice(next, q, tr2, eof2, Ghost(pre), Ghost(mid));
                res
            },
        }
    }
}

} // verus!

verus! {

impl<L: LoadStore> VirtualFile<L> {
    /// Splice a loaded chunk's parsed pieces onto the window's tail.
    #[verifier::rlimit(100)]
    fn extend_splice(
        &mut self,
        next: u64,
        q: Vec<LoadedLine>,
        tr2: bool,
        eof2: bool,
        Ghost(pre): Ghost<VirtualFile<L>>,
        Ghost(mid): Ghost<VirtualFile<L>>,
    ) -> (r: Result<(), BufferError>)
        requires
            pre.wf(),
            pre.window is Some,
            mid.wf(),
            mid.window == pre.window,
            mid.window_dirty == pre.window_dirty,
            mid.line_index_in_window == pre.line_index_in_window,
            mid.chunk_size == pre.chunk_size,
            mid.bs() == pre.bs(),
            mid.memstore.content_len() == pre.memstore.content_len(),
            mid.memstore.load_store.store_count() == pre.memstore.load_store.store_count(),
            *old(self) == mid,
            next as int == pre.window->Some_0.hi_chunk as int + 1,
            (next as int + 1) * pre.cs() <= u64::MAX,
            mid.memstore.cached(next),
            mid.memstore.chunk_at(next) is Loaded,
            !mid.memstore.chunk_at(next).is_dirty(),
            mid.memstore.chunk_at(next).spec_data() == pre.bs().subrange(
                next as int * pre.cs(),
                imin(next as int * pre.cs() + pre.cs(), pre.bs().len() as int),
            ),
            1 <= mid.memstore.chunk_at(next).spec_data().len(),
            forall|kk: u64| #![trigger mid.memstore.cached(kk)]
                mid.memstore.cached(kk) == (pre.memstore.cached(kk) || kk == next),
            forall|kk: u64| #![trigger mid.memstore.chunk_at(kk)]
                pre.memstore.cached(kk) ==> mid.memstore.chunk_at(kk) == pre.memstore.chunk_at(
                    kk,
                ),
            mid.memstore.chunks@ == pre.memstore.chunks@ || mid.memstore.chunks@
                == pre.memstore.chunks@.push((next, mid.memstore.chunk_at(next))),
            pieces_have_no_nl(lines_view(q@)),
            joined_bytes(lines_view(q@), tr2) == mid.memstore.chunk_at(next).spec_data(),
            q@.len() >= 1,
            tr2 ==> eof2,
            eof2 == (mid.memstore.chunk_at(next).spec_data().len() < pre.cs()),
            eof2 && !tr2 ==> q@[q@.len() - 1].bytes@.len() > 0,
            forall|i: int|
                0 <= i < q@.len() ==> (#[trigger] q@[i]).complete == (i + 1 < q@.len() || eof2),
        ensures
            final(self).wf(),
            final(self).chunk_size == pre.chunk_size,
            final(self).file() == pre.file(),
            final(self).bs() == pre.bs(),
            final(self).memstore.content_len() == pre.memstore.content_len(),
            final(self).window_dirty == pre.window_dirty,
            final(self).memstore.load_store.store_count()
                == pre.memstore.load_store.store_count(),
            final(self).memstore.load_store.load_count() == old(
                self,
            ).memstore.load_store.load_count(),
            final(self).line_index_in_window == pre.line_index_in_window,
            final(self).window is Some,
            r is Ok,
            ({
                let w1 = pre.window->Some_0;
                let w2 = final(self).window->Some_0;
                &&& w2.lo_chunk == w1.lo_chunk
                &&& w2.hi_chunk as int == w1.hi_chunk + 1
                &&& (forall|j: int|
                    0 <= j < w1.lines@.len() - 1 ==> #[trigger] w2.lines@[j] == w1.lines@[j])
                &&& w2.lines@.len() >= w1.lines@.len() - 1
                &&& (!w2.at_eof ==> next as int * pre.cs() + pre.cs() <= pre.bs().len())
            }),
    {
        let ghost w1 = pre.window->Some_0;
        let cs = self.chunk_size;
        let (lo, hi) = match &self.window {
            Some(w) => (w.lo_chunk, w.hi_chunk),
            None => unreached(),
        };
        let ghost koff2 = next as int * pre.cs();
        let ghost blen = pre.bs().len() as int;
        proof {
            assert(koff2 == w1.hi_raw(pre.cs())) by (nonlinear_arith)
                requires
                    koff2 == next as int * pre.cs(),
                    next as int == w1.hi_chunk as int + 1,
                    w1.hi_raw(pre.cs()) == (w1.hi_chunk as int + 1) * pre.cs(),
            ;
        }

                let ghost q0 = q@;
                let ghost qv = lines_view(q@);
                let ghost d = pre.bs().subrange(koff2, imin(koff2 + pre.cs(), blen));
                proof {
                    // the window was not at the file end, so its trailing
                    // fragment is open and unterminated
                    assert(!w1.at_eof) by {
                        if w1.at_eof {
                            assert(w1.hi_raw(pre.cs()) >= blen);
                            assert(koff2 < blen);
                        }
                    }
                    assert(!w1.trailing);
                    assert(joined_bytes(qv, tr2) == d);
                    assert(q@.len() >= 1);
                    if eof2 {
                        assert(d.len() < pre.cs());
                        assert(imin(koff2 + pre.cs(), blen) == blen);
                    }
                }
                let mut q = q;
                let n_old = match &self.window {
                    Some(w) => w.lines.len(),
                    None => unreached(),
                };
                match &mut self.window {
                    Some(w) => {
                        w.hi_chunk = next;
                        w.at_eof = eof2;
                        w.trailing = tr2;
                        if w.lines.len() == 0 {
                            // a window emptied by edits adopts the new
                            // chunk's lines whole
                            if lo > 0 && q.len() > 0 {
                                let qf = &mut q[0];
                                qf.complete = false;
                            }
                            w.lines = q;
                            proof {
                                assert(lines_view(w.lines@) =~~= qv);
                            }
                        } else {
                            let first = q.remove(0);
                            let n = w.lines.len();
                            let merged_complete = ((n - 1 > 0) || lo == 0) && (q.len() > 0
                                || eof2);
                            let mut fb = first.bytes;
                            let lastslot = &mut w.lines[n - 1];
                            lastslot.bytes.append(&mut fb);
                            lastslot.complete = merged_complete;
                            w.lines.append(&mut q);
                        }
                    },
                    None => {
                        proof {
                            assert(false);
                        }
                    },
                }
                proof {
                    let w2 = self.window->Some_0;
                    let a = lines_view(w1.lines@);
                    let nold = w1.lines@.len() as int;
                    if nold == 0 {
                        assert(w2.lines@.len() == q0.len());
                        assert(lines_view(w2.lines@) =~~= qv);
                        assert(w2.wbytes() =~= w1.wbytes() + d) by {
                            assert(w1.wbytes() =~= Seq::<u8>::empty());
                            assert(w2.wbytes() == joined_bytes(qv, tr2));
                            assert(joined_bytes(qv, tr2) =~= Seq::<u8>::empty() + joined_bytes(
                                qv,
                                tr2,
                            ));
                        }
                        assert(pieces_have_no_nl(lines_view(w2.lines@)));
                        assert(w2.flags_ok()) by {
                            assert forall|i: int| 0 <= i < w2.lines@.len() implies (
                            #[trigger] w2.lines@[i]).complete == ((i > 0 || w2.lo_chunk == 0) && (
                            i + 1 < w2.lines@.len() || w2.at_eof)) by {
                                if i == 0 && lo > 0 {
                                    assert(w2.lines@[0].complete == false);
                                } else {
                                    assert(w2.lines@[i] == q0[i]);
                                    assert(q0[i].complete == (i + 1 < q0.len() || eof2));
                                }
                            }
                        }
                    } else {
                        let merged = LoadedLine {
                            bytes: w2.lines@[nold - 1].bytes,
                            complete: w2.lines@[nold - 1].complete,
                        };
                        assert(w2.lines@ =~= w1.lines@.update(nold - 1, merged) + q0.remove(0));
                        assert(q0.remove(0) =~= q0.skip(1));
                        assert(w2.lines@.len() == nold + q0.len() - 1);
                        assert(merged.bytes@ =~= a.last() + qv[0]);
                        assert(lines_view(w2.lines@) =~~= a.drop_last() + seq![a.last() + qv[0]]
                            + qv.skip(1)) by {
                            assert forall|i: int| 0 <= i < w2.lines@.len() implies lines_view(
                                w2.lines@,
                            )[i] == (a.drop_last() + seq![a.last() + qv[0]] + qv.skip(1))[i] by {
                                assert(lines_view(w2.lines@)[i] == w2.lines@[i].bytes@);
                                if i < nold - 1 {
                                    assert(w2.lines@[i] == w1.lines@[i]);
                                    assert(a.drop_last()[i] == a[i]);
                                } else if i == nold - 1 {
                                    assert(w2.lines@[i] == merged);
                                } else {
                                    assert(w2.lines@[i] == q0.skip(1)[i - nold]);
                                    assert(q0.skip(1)[i - nold] == q0[i - nold + 1]);
                                    assert(qv.skip(1)[i - nold] == qv[i - nold + 1]);
                                    assert(qv[i - nold + 1] == q0[i - nold + 1].bytes@);
                                }
                            }
                        }
                        lemma_join_stitch(a, qv);
                        assert(w2.wbytes() =~= w1.wbytes() + d) by {
                            assert(join_bytes(lines_view(w2.lines@)) == join_bytes(a) + join_bytes(
                                qv,
                            ));
                            assert(w1.wbytes() =~= join_bytes(a));
                            assert(joined_bytes(qv, tr2) == join_bytes(qv) + (if tr2 {
                                seq![NL]
                            } else {
                                Seq::<u8>::empty()
                            }));
                        }
                        assert(pieces_have_no_nl(lines_view(w2.lines@))) by {
                            assert forall|i: int| 0 <= i < lines_view(w2.lines@).len() implies !(
                            #[trigger] lines_view(w2.lines@)[i]).contains(NL) by {
                                let a2 = lines_view(w2.lines@);
                                if i < nold - 1 {
                                    assert(a2[i] == a[i]);
                                    assert(!a[i].contains(NL));
                                } else if i == nold - 1 {
                                    assert(a2[i] == a.last() + qv[0]);
                                    assert(!a.last().contains(NL));
                                    assert(!qv[0].contains(NL));
                                    assert forall|t: int| 0 <= t < a2[i].len() implies a2[i][t]
                                        != NL by {
                                        if t < a.last().len() {
                                            assert(a2[i][t] == a.last()[t]);
                                        } else {
                                            assert(a2[i][t] == qv[0][t - a.last().len()]);
                                        }
                                    }
                                } else {
                                    assert(a2[i] == qv[i - nold + 1]);
                                    assert(!qv[i - nold + 1].contains(NL));
                                }
                            }
                        }
                        assert(w2.flags_ok()) by {
                            assert forall|i: int| 0 <= i < w2.lines@.len() implies (
                            #[trigger] w2.lines@[i]).complete == ((i > 0 || w2.lo_chunk == 0) && (
                            i + 1 < w2.lines@.len() || w2.at_eof)) by {
                                assert(w1.flags_ok());
                                if i < nold - 1 {
                                    assert(w2.lines@[i] == w1.lines@[i]);
                                    assert(w1.lines@[i].complete == ((i > 0 || w1.lo_chunk == 0)
                                        && (i + 1 < w1.lines@.len() || w1.at_eof)));
                                } else if i == nold - 1 {
                                    assert(w2.lines@[i].complete == (((nold - 1 > 0) || lo == 0)
                                        && (q0.len() - 1 > 0 || eof2)));
                                } else {
                                    assert(w2.lines@[i] == q0[i - nold + 1]);
                                    assert(q0[i - nold + 1].complete == (i - nold + 2 < q0.len()
                                        || eof2));
                                }
                            }
                        }
                        // the final line of a window at the file end that
                        // does not end in a terminator is non-empty
                        if w2.at_eof && !w2.trailing && w2.lines@.len() > 0 {
                            assert(w2.lines@[w2.lines@.len() - 1].bytes@.len() > 0) by {
                                if q0.len() == 1 {
                                    assert(w2.lines@.len() - 1 == nold - 1);
                                    assert(q0[q0.len() - 1].bytes@.len() > 0);
                                    assert(qv[0].len() > 0);
                                    assert(merged.bytes@.len() >= qv[0].len());
                                } else {
                                    assert(w2.lines@[w2.lines@.len() - 1] == q0[q0.len() - 1]);
                                    assert(q0[q0.len() - 1].bytes@.len() > 0);
                                }
                            }
                        }
                    }
                    // coverage and the logical file
                    Self::lemma_window_offsets(&w1, pre.cs());
                    assert(w2.hi_raw(self.cs()) == koff2 + pre.cs()) by (nonlinear_arith)
                        requires
                            w2.hi_raw(self.cs()) == (w2.hi_chunk as int + 1) * pre.cs(),
                            koff2 == (w1.hi_chunk as int + 1) * pre.cs(),
                            w2.hi_chunk as int == w1.hi_chunk as int + 1,
                    ;
                    assert(w2.hi_raw(self.cs()) <= u64::MAX);
                    if eof2 {
                        assert(w2.hi_raw(self.cs()) >= blen);
                    }
                    assert(imin(w1.hi_raw(pre.cs()), blen) == koff2);
                    assert(d == self.bs().subrange(koff2, imin(koff2 + pre.cs(), blen)));
                    if !self.window_dirty {
                        assert(w1.lines@.len() > 0 || !pre.window_dirty);
                        assert(w2.wbytes() == self.bs().subrange(
                            imin(w2.lo_off(self.cs()), blen),
                            imin(w2.hi_raw(self.cs()), blen),
                        )) by {
                            assert(w1.wbytes() == pre.bs().subrange(
                                imin(w1.lo_off(pre.cs()), blen),
                                koff2,
                            ));
                            assert(w2.wbytes() =~= pre.bs().subrange(
                                imin(w1.lo_off(pre.cs()), blen),
                                imin(koff2 + pre.cs(), blen),
                            ));
                        }
                    }
                    assert forall|k: u64| #![trigger self.memstore.chunk_at(k)]
                        self.memstore.cached(k) && self.memstore.chunk_at(k).is_dirty() implies
                        w2.lo_chunk <= k <= w2.hi_chunk by {
                        if pre.memstore.cached(k) {
                            assert(pre.memstore.chunk_at(k) == self.memstore.chunk_at(k));
                            assert(w1.lo_chunk <= k <= w1.hi_chunk);
                        } else {
                            assert(k == next);
                            assert(!self.memstore.chunk_at(k).is_dirty());
                        }
                    }
                    assert(self.memstore.content_len() == pre.memstore.content_len());
                    assert forall|kk: u64| #![trigger self.memstore.chunk_at(kk)]
                        self.memstore.cached(kk) && self.memstore.chunk_at(kk) is Empty implies kk
                        as int * self.cs() >= self.memstore.content_len() by {
                        if pre.memstore.cached(kk) {
                            assert(pre.memstore.chunk_at(kk) == self.memstore.chunk_at(kk));
                        } else {
                            assert(kk == next);
                            assert(!(self.memstore.chunk_at(kk) is Empty));
                        }
                    }
                    assert forall|kk: u64| w2.lo_chunk <= kk <= w2.hi_chunk implies #[trigger]
                    self.memstore.cached(kk) by {
                        if kk <= w1.hi_chunk {
                            assert(self.memstore.cached(kk));
                        } else {
                            assert(kk == next);
                        }
                    }
                    if !self.window_dirty {
                        assert forall|t: int|
                            0 <= t < self.memstore.chunks@.len() implies !(
                        #[trigger] self.memstore.chunks@[t]).1.is_dirty() by {
                            if t < pre.memstore.chunks@.len() {
                                assert(!pre.memstore.chunks@[t].1.is_dirty());
                            } else {
                                assert(self.memstore.chunks@[t] == (
                                    next,
                                    mid.memstore.chunk_at(next),
                                ));
                            }
                        }
                    }
                    assert((w2.lines@.len() > 0 || self.window_dirty) ==> w2.lo_off(self.cs())
                        <= blen) by {
                        if w2.lines@.len() > 0 && w1.lines@.len() == 0 && !self.window_dirty {
                            assert(false);
                        }
                    }
                    assert(self.wf());
                    assert(self.file() =~= pre.file()) by {
                        assert(imin(w2.hi_raw(self.cs()), blen) == imin(koff2 + pre.cs(), blen));
                        assert(w2.lo_off(self.cs()) == w1.lo_off(pre.cs()));
                    }
                }
                Ok(())
    }

}

} // verus!


verus! {

impl<L: LoadStore> VirtualFile<L> {
    /// Raise the window's high chunk to cover everything just written.
    fn finish_window_range(&mut self, hi_new: u64)
        requires
            old(self).window is Some,
        ensures
            final(self).window is Some,
            ({
                let w1 = old(self).window->Some_0;
                let w2 = final(self).window->Some_0;
                &&& w2.lines == w1.lines
                &&& w2.lo_chunk == w1.lo_chunk
                &&& w2.hi_chunk as int == imax(w1.hi_chunk as int, hi_new as int)
                &&& w2.at_eof == w1.at_eof
                &&& w2.trailing == w1.trailing
            }),
            final(self).chunk_size == old(self).chunk_size,
            final(self).memstore == old(self).memstore,
            final(self).window_dirty == old(self).window_dirty,
            final(self).line_index_in_window == old(self).line_index_in_window,
    {
        match &mut self.window {
            Some(w) => {
                if hi_new > w.hi_chunk {
                    w.hi_chunk = hi_new;
                }
            },
            None => {
                proof {
                    assert(false);
                }
            },
        }
    }

    /// Join the window's lines back into the bytes they represent.
    fn serialize_window(&self) -> (r: Vec<u8>)
        requires
            self.wf(),
            self.window is Some,
        ensures
            r@ == self.window->Some_0.wbytes(),
    {
        let w = match &self.window {
            Some(w) => w,
            None => unreached(),
        };
        let ghost lv = lines_view(w.lines@);
        let mut out: Vec<u8> = Vec::new();
        let mut j: usize = 0;
        while j < w.lines.len()
            invariant
                lv == lines_view(w.lines@),
                j <= w.lines@.len(),
                j == 0 ==> out@ == Seq::<u8>::empty(),
                j > 0 ==> out@ == join_bytes(lv.take(j as int)),
            decreases w.lines@.len() - j,
        {
            if j > 0 {
                out.push(NL);
            }
            let ghost mid = out@;
            let line = &w.lines[j];
            let mut t: usize = 0;
            while t < line.bytes.len()
                invariant
                    out@ == mid + line.bytes@.take(t as int),
                    t <= line.bytes@.len(),
                decreases line.bytes@.len() - t,
            {
                out.push(line.bytes[t]);
                proof {
                    assert(out@ =~= mid + line.bytes@.take(t as int + 1));
                }
                t += 1;
            }
            proof {
                assert(line.bytes@.take(line.bytes@.len() as int) =~= line.bytes@);
                assert(lv[j as int] == line.bytes@);
                assert(lv.take(j as int + 1) =~= lv.take(j as int).push(lv[j as int]));
                if j == 0 {
                    assert(out@ =~= lv[0]);
                    assert(lv.take(1) =~~= lv.take(0).push(lv[0]));
                    lemma_join_push(lv.take(0), lv[0]);
                } else {
                    lemma_join_push(lv.take(j as int), lv[j as int]);
                    assert(out@ =~= join_bytes(lv.take(j as int)) + seq![NL] + lv[j as int]);
                }
                assert(out@ =~= join_bytes(lv.take(j as int + 1)));
            }
            j += 1;
        }
        proof {
            if w.lines@.len() == 0 {
                assert(out@ =~= join_bytes(lv));
            } else {
                assert(lv.take(lv.len() as int) =~= lv);
            }
        }
        if w.trailing {
            out.push(NL);
            proof {
                assert(out@ =~= joined_bytes(lv, true));
            }
        } else {
            proof {
                assert(out@ =~= joined_bytes(lv, false));
            }
        }
        out
    }

    /// The unchanging context of a flush: the state at the start of the
    /// re-chunking, with the window already extended to the end of the
    /// file, and the bound within which every written chunk's offsets fit.
    pub open spec fn flush_ctx(
        pre: Self,
        w0: Window,
        lo: u64,
        cs: int,
        lo_off: int,
        blen: int,
        c1len: int,
        wb: Seq<u8>,
        kcap_chunk: int,
    ) -> bool {
        &&& pre.wf()
        &&& pre.window == Some(w0)
        &&& pre.window_dirty
        &&& cs == pre.cs()
        &&& lo == w0.lo_chunk
        &&& lo_off == lo as int * cs
        &&& blen == pre.bs().len()
        &&& c1len == pre.memstore.content_len()
        &&& lo_off <= blen
        &&& wb == w0.wbytes()
        &&& w0.at_eof
        &&& lo as int <= kcap_chunk
        &&& (kcap_chunk + 1) * cs <= u64::MAX
        &&& lo_off + wb.len() <= (kcap_chunk + 1) * cs
    }

    /// The cache's state while the re-chunked pieces are being written:
    /// bytes below the write position hold the new content, everything
    /// else is as before.
    pub open spec fn flush_mstate(
        ms: Memstore<L>,
        pre: Self,
        w0: Window,
        lo: u64,
        cs: int,
        lo_off: int,
        c1len: int,
        k: u64,
        pos: int,
        wb: Seq<u8>,
    ) -> bool {
        &&& ms.wf()
        &&& ms.chunk_size == pre.chunk_size
        &&& ms.load_store.load_count() == pre.memstore.load_store.load_count()
        &&& ms.load_store.store_count() == pre.memstore.load_store.store_count()
        &&& ms.bs() == pre.bs()
        &&& 0 <= pos <= wb.len()
        &&& lo_off + pos <= k as int * cs
        &&& (pos < wb.len() ==> lo_off + pos == k as int * cs)
        &&& k as int >= lo as int
        &&& ms.content_len() == imax(c1len, lo_off + pos)
        &&& (forall|p: int| #![trigger ms.content_at(p)]
            0 <= p < ms.content_len() ==> ms.content_at(p) == (if lo_off <= p < lo_off + pos {
                wb[p - lo_off]
            } else {
                pre.memstore.content_at(p)
            }))
        &&& (forall|kk: u64| #![trigger ms.cached(kk)]
            ms.cached(kk) == (pre.memstore.cached(kk) || (lo <= kk && kk < k)))
        &&& (forall|kk: u64| #![trigger ms.chunk_at(kk)]
            ms.cached(kk) && ms.chunk_at(kk).is_dirty() ==> (lo <= kk && (kk <= w0.hi_chunk || (
            kk < k))))
        &&& (forall|kk: u64| #![trigger ms.chunk_at(kk)]
            ms.cached(kk) && ms.chunk_at(kk) is Empty ==> kk as int * cs >= ms.content_len())
        &&& (forall|kk: u64| lo <= kk <= w0.hi_chunk ==> #[trigger] ms.cached(kk))
        &&& (forall|kk: u64| lo <= kk && kk < k ==> (#[trigger] ms.chunk_at(kk)) is Loaded)
    }

    /// Flush pending edits: the window is re-joined into bytes, re-split
    /// into chunks which replace the cached ones, and every dirty chunk is
    /// written back through the backing store. With no pending edit
    /// nothing at all is written; on failure every edit is retained, so
    /// that a later call retries.
    #[verifier::rlimit(100)]
    pub fn flush_all(&mut self) -> (r: Result<(), BufferError>)
        requires
            old(self).wf(),
        ensures
            final(self).wf(),
            final(self).chunk_size == old(self).chunk_size,
            !old(self).window_dirty ==> *final(self) == *old(self) && r is Ok,
            match r {
                Ok(_) => {
                    &&& !final(self).window_dirty
                    &&& final(self).file() == final(self).bs()
                    &&& final(self).bs().len() >= old(self).file().len()
                    &&& final(self).bs().subrange(0, old(self).file().len() as int) == old(
                        self,
                    ).file()
                    &&& (old(self).file().len() >= old(self).memstore.content_len() ==> final(self).bs() == old(self).file())
                },
                Err(e) => {
                    &&& final(self).file() == old(self).file()
                    &&& final(self).window_dirty == old(self).window_dirty
                },
            },
    {
        if !self.window_dirty {
            proof {
                self.lemma_clean_file();
                assert(self.bs().subrange(0, self.file().len() as int) =~= self.file());
            }
            return Ok(());
        }
        let ghost pre0 = *old(self);
        // 1. extend the window to the end of the file, so that everything
        //    the re-chunking shifts is in hand
        loop
            invariant
                pre0 == *old(self),
                pre0.window_dirty,
                self.wf(),
                self.window is Some,
                self.window_dirty,
                self.chunk_size == pre0.chunk_size,
                self.file() == pre0.file(),
                self.memstore.content_len() == pre0.memstore.content_len(),
                self.bs() == pre0.bs(),
                self.window->Some_0.lo_chunk == pre0.window->Some_0.lo_chunk,
            ensures
                self.wf(),
                self.window is Some,
                self.window_dirty,
                self.chunk_size == pre0.chunk_size,
                self.file() == pre0.file(),
                self.memstore.content_len() == pre0.memstore.content_len(),
                self.bs() == pre0.bs(),
                self.window->Some_0.lo_chunk == pre0.window->Some_0.lo_chunk,
                self.window->Some_0.at_eof,
            decreases imax(
                self.bs().len() as int - self.window->Some_0.hi_raw(self.cs()),
                0,
            ) + (if self.window->Some_0.at_eof {
                0int
            } else {
                1int
            }),
        {
            let done = match &self.window {
                Some(w) => w.at_eof,
                None => unreached(),
            };
            if done {
                break;
            }
            let ghost hprev = self.window->Some_0.hi_raw(self.cs());
            match self.extend_forward() {
                Ok(_) => {},
                Err(e) => {
                    return Err(e);
                },
            }
            proof {
                let w = self.window->Some_0;
                assert(w.hi_raw(self.cs()) == hprev + self.cs()) by (nonlinear_arith)
                    requires
                        w.hi_raw(self.cs()) == (w.hi_chunk as int + 1) * self.cs(),
                        hprev == w.hi_chunk as int * self.cs(),
                ;
            }
        }
        // 2. re-join the lines
        let wb = self.serialize_window();
        let (lo, hi0) = match &self.window {
            Some(w) => (w.lo_chunk, w.hi_chunk),
            None => unreached(),
        };
        // bound the chunk offsets every piece will use
        let kcap: u64 = if wb.len() == 0 {
            lo
        } else {
            let nm1 = (wb.len() - 1) as u64 / self.chunk_size;
            match lo.checked_add(nm1) {
                Some(kc) => kc,
                None => {
                    return Err(BufferError::Store { chunk_index: lo });
                },
            }
        };
        match kcap.checked_add(1) {
            Some(t1) => match t1.checked_mul(self.chunk_size) {
                Some(_) => {},
                None => {
                    return Err(BufferError::Store { chunk_index: kcap });
                },
            },
            None => {
                return Err(BufferError::Store { chunk_index: kcap });
            },
        }
        let ghost pre = *self;
        let ghost w0 = pre.window->Some_0;
        let ghost cs = pre.cs();
        let ghost lo_off = lo as int * cs;
        let ghost blen = pre.bs().len() as int;
        let ghost c1len = pre.memstore.content_len();
        proof {
            Self::lemma_window_offsets(&w0, cs);
            assert(lo_off <= blen) by {
                if w0.lines@.len() == 0 && !pre.window_dirty {
                    assert(false);
                }
            }
            assert(cs > 0);
            assert(lo_off + wb@.len() <= (kcap as int + 1) * cs) by {
                if wb@.len() == 0 {
                    assert(lo_off <= (lo as int + 1) * cs) by (nonlinear_arith)
                        requires
                            lo_off == lo as int * cs,
                            cs > 0,
                    ;
                } else {
                    let nm1 = (wb@.len() - 1) as int / cs;
                    vstd::arithmetic::div_mod::lemma_fundamental_div_mod(
                        (wb@.len() - 1) as int,
                        cs,
                    );
                    vstd::arithmetic::div_mod::lemma_mod_bound((wb@.len() - 1) as int, cs);
                    assert(wb@.len() - 1 < (nm1 + 1) * cs) by (nonlinear_arith)
                        requires
                            wb@.len() - 1 == cs * nm1 + ((wb@.len() - 1) as int % cs),
                            (wb@.len() - 1) as int % cs < cs,
                    ;
                    assert((lo as int + nm1 + 1) * cs == lo as int * cs + (nm1 + 1) * cs) by (
                    nonlinear_arith)
                    ;
                }
            }
            assert(Self::flush_ctx(pre, w0, lo, cs, lo_off, blen, c1len, wb@, kcap as int));
            assert(Self::flush_mstate(
                pre.memstore,
                pre,
                w0,
                lo,
                cs,
                lo_off,
                c1len,
                lo,
                0,
                wb@,
            )) by {
                assert(imax(c1len, lo_off + 0) == c1len) by {
                    assert(c1len >= blen >= lo_off);
                }
            }
        }
        // 3. re-split into chunks, replacing the cached ones
        let mut pos: usize = 0;
        let mut k = lo;
        let mut hi_written = hi0;
        while pos < wb.len()
            invariant
                pre0 == *old(self),
                pre0.window_dirty,
                pre.file() == pre0.file(),
                Self::flush_ctx(pre, w0, lo, cs, lo_off, blen, c1len, wb@, kcap as int),
                Self::flush_mstate(
                    self.memstore,
                    pre,
                    w0,
                    lo,
                    cs,
                    lo_off,
                    c1len,
                    k,
                    pos as int,
                    wb@,
                ),
                self.window == pre.window,
                self.window_dirty,
                self.line_index_in_window == pre.line_index_in_window,
                self.chunk_size == pre.chunk_size,
                hi0 == w0.hi_chunk,
                hi_written as int == imax(hi0 as int, k as int - 1),
                k as int <= kcap as int + 1,
            decreases wb@.len() - pos,
        {
            let rem = wb.len() - pos;
            let take: usize = if self.chunk_size <= rem as u64 {
                self.chunk_size as usize
            } else {
                rem
            };
            proof {
                assert(k as int * cs == lo_off + pos);
                assert(k as int <= kcap as int) by {
                    assert(k as int * cs < lo_off + wb@.len());
                    assert(lo_off + wb@.len() <= (kcap as int + 1) * cs);
                    assert((k as int) < kcap as int + 1) by (nonlinear_arith)
                        requires
                            k as int * cs < (kcap as int + 1) * cs,
                            cs > 0,
                    ;
                }
                assert((k as int + 1) * cs <= (kcap as int + 1) * cs) by (nonlinear_arith)
                    requires
                        k as int + 1 <= kcap as int + 1,
                        cs > 0,
                ;
                assert((k as int + 1) * cs == k as int * cs + cs) by (nonlinear_arith);
            }
            // the piece's bytes
            let mut piece: Vec<u8> = Vec::new();
            let mut t: usize = 0;
            proof {
                assert(wb@.len() <= usize::MAX) by {
                    assert(wb.len() == wb@.len());
                }
            }
            while t < take
                invariant
                    t <= take,
                    pos + take <= wb@.len(),
                    wb@.len() <= usize::MAX,
                    piece@ == wb@.subrange(pos as int, pos as int + t as int),
                decreases take - t,
            {
                piece.push(wb[pos + t]);
                proof {
                    assert(piece@ =~= wb@.subrange(pos as int, pos as int + t as int + 1));
                }
                t += 1;
            }
            // a final short piece keeps the old bytes of its chunk beyond
            // the new end, so that the write stays chunk-aligned
            if (take as u64) < self.chunk_size {
                match self.memstore.peek(k) {
                    Some(c) => match c {
                        Chunk::Loaded { data, .. } => {
                            if take < data.len() {
                                let mut t2: usize = take;
                                proof {
                                    assert(piece@ =~= wb@.subrange(
                                        pos as int,
                                        pos as int + take as int,
                                    ) + data@.subrange(take as int, take as int));
                                }
                                while t2 < data.len()
                                    invariant
                                        take <= t2 <= data@.len(),
                                        piece@ == wb@.subrange(
                                            pos as int,
                                            pos as int + take as int,
                                        ) + data@.subrange(take as int, t2 as int),
                                    decreases data@.len() - t2,
                                {
                                    piece.push(data[t2]);
                                    proof {
                                        assert(piece@ =~= wb@.subrange(
                                            pos as int,
                                            pos as int + take as int,
                                        ) + data@.subrange(take as int, t2 as int + 1));
                                    }
                                    t2 += 1;
                                }
                            }
                        },
                        Chunk::Empty => {},
                    },
                    None => {},
                }
            }
            let ghost msb = self.memstore;
            let ghost clen_cur = msb.content_len();
            let ghost piece_v = piece@;
            proof {
                // the piece is admissible: it stays within one chunk, is
                // contiguous with the content, and a short piece reaches
                // the content end
                assert(piece_v.len() <= cs) by {
                    if piece_v.len() > take as int {
                        assert(msb.cached(k) && msb.chunk_at(k) is Loaded);
                        let ti = crate::memstore::sk_idx(msb.chunks@, k);
                        crate::memstore::lemma_sk_at_index(msb.chunks@, ti, k);
                        assert(msb.entry_wf(msb.chunks@[ti]));
                    }
                }
                assert(k as int * cs <= clen_cur);
                if piece_v.len() < cs {
                    assert(take as int == wb@.len() - pos);
                    if msb.cached(k) {
                        let ti = crate::memstore::sk_idx(msb.chunks@, k);
                        crate::memstore::lemma_sk_at_index(msb.chunks@, ti, k);
                        assert(msb.entry_wf(msb.chunks@[ti]));
                        crate::memstore::lemma_extent_bound(msb.chunks@, cs, ti);
                        match msb.chunk_at(k) {
                            Chunk::Loaded { data, .. } => {
                                if data@.len() >= take as int {
                                    assert(piece_v.len() == data@.len());
                                    assert(data@.len() < cs);
                                    assert(k as int * cs + data@.len() >= clen_cur);
                                } else {
                                    assert(piece_v.len() == take as int);
                                    assert(data@.len() < cs);
                                    assert(k as int * cs + data@.len() >= clen_cur);
                                    assert(k as int * cs + piece_v.len() >= clen_cur);
                                }
                            },
                            Chunk::Empty => {
                                assert(k as int * cs >= clen_cur);
                            },
                        }
                    } else {
                        // unwritten and uncached: the chunk lies past the
                        // old window, so nothing reaches past its start
                        assert(!(lo <= k && k <= w0.hi_chunk));
                        assert(k as int > w0.hi_chunk as int);
                        assert((w0.hi_chunk as int + 1) * cs <= k as int * cs) by (
                        nonlinear_arith)
                            requires
                                w0.hi_chunk as int + 1 <= k as int,
                                cs > 0,
                        ;
                        assert(blen <= w0.hi_raw(cs));
                        assert(c1len <= imax(blen, (w0.hi_chunk as int + 1) * cs)) by {
                            assert forall|tt: int|
                                0 <= tt < pre.memstore.chunks@.len() && (
                                #[trigger] pre.memstore.chunks@[tt]).1.is_dirty() implies
                                pre.memstore.chunks@[tt].0 <= w0.hi_chunk by {
                                let kk = pre.memstore.chunks@[tt].0;
                                crate::memstore::lemma_sk_at_index(pre.memstore.chunks@, tt, kk);
                                assert(pre.memstore.chunk_at(kk).is_dirty());
                            }
                            pre.memstore.lemma_dirty_extent_bound(w0.hi_chunk);
                        }
                        assert(clen_cur <= k as int * cs);
                    }
                }
            }
            self.memstore.set_chunk(k, piece);
            proof {
                assert(k as int + 1 <= u64::MAX) by (nonlinear_arith)
                    requires
                        (k as int) < kcap as int + 1,
                        (kcap as int + 1) * cs <= u64::MAX,
                        cs >= 1,
                        kcap as int >= 0,
                ;
                // the state invariant moves one piece forward
                let msa = self.memstore;
                let pos2 = pos as int + take as int;
                let end_new = k as int * cs + piece_v.len();
                assert(msa.content_len() == imax(c1len, lo_off + pos2)) by {
                    assert(msa.content_len() == imax(clen_cur, end_new));
                    if piece_v.len() > take as int {
                        assert(msb.cached(k) && msb.chunk_at(k) is Loaded);
                        let ti = crate::memstore::sk_idx(msb.chunks@, k);
                        crate::memstore::lemma_sk_at_index(msb.chunks@, ti, k);
                        crate::memstore::lemma_extent_bound(msb.chunks@, cs, ti);
                        assert(end_new <= clen_cur);
                    }
                }
                assert forall|p: int| #![trigger msa.content_at(p)]
                    0 <= p < msa.content_len() implies msa.content_at(p) == (if lo_off <= p
                    < lo_off + pos2 {
                    wb@[p - lo_off]
                } else {
                    pre.memstore.content_at(p)
                }) by {
                    if k as int * cs <= p < end_new {
                        if p - k as int * cs < take as int {
                            assert(msa.content_at(p) == piece_v[p - k as int * cs]);
                            assert(piece_v[p - k as int * cs] == wb@[pos as int + (p - k as int
                                * cs)]);
                        } else {
                            // the filled tail keeps the chunk's old bytes
                            assert(msa.content_at(p) == piece_v[p - k as int * cs]);
                            assert(msb.cached(k) && msb.chunk_at(k) is Loaded);
                            match msb.chunk_at(k) {
                                Chunk::Loaded { data, .. } => {
                                    assert(piece_v[p - k as int * cs] == data@[p - k as int
                                        * cs]);
                                    assert(msb.content_at(p) == data@[p - k as int * cs]) by {
                                        crate::memstore::lemma_chunk_of_eq(p, cs, k);
                                    }
                                    assert(p >= lo_off + pos2);
                                },
                                Chunk::Empty => {
                                    assert(false);
                                },
                            }
                        }
                    } else {
                        assert(msa.content_at(p) == msb.content_at(p));
                        if lo_off <= p < lo_off + pos2 {
                            assert(p < lo_off + pos);
                        }
                    }
                }
                assert forall|kk: u64| #![trigger msa.chunk_at(kk)]
                    msa.cached(kk) && msa.chunk_at(kk) is Empty implies kk as int * cs
                    >= msa.content_len() by {
                    assert(kk != k);
                    assert(msb.cached(kk));
                    assert(msa.chunk_at(kk) == msb.chunk_at(kk));
                    assert(kk as int * cs >= msb.content_len());
                    if kk as int * cs < msa.content_len() {
                        assert(msa.content_len() == imax(clen_cur, end_new));
                        assert(kk as int * cs < end_new);
                        assert(kk as int > k as int || (kk as int) < k as int);
                        if kk as int > k as int {
                            assert(kk as int * cs >= (k as int + 1) * cs) by (nonlinear_arith)
                                requires
                                    kk as int >= k as int + 1,
                                    cs > 0,
                            ;
                            assert(end_new <= (k as int + 1) * cs);
                            assert(false);
                        } else {
                            if lo <= kk {
                                assert(msb.chunk_at(kk) is Loaded);
                                assert(false);
                            } else {
                                assert(kk as int * cs < lo_off) by (nonlinear_arith)
                                    requires
                                        (kk as int) < lo as int,
                                        cs > 0,
                                        kk as int >= 0,
                                        lo_off == lo as int * cs,
                                ;
                                assert(kk as int * cs >= clen_cur >= c1len >= blen >= lo_off);
                                assert(false);
                            }
                        }
                    }
                }
                assert(Self::flush_mstate(
                    self.memstore,
                    pre,
                    w0,
                    lo,
                    cs,
                    lo_off,
                    c1len,
                    (k + 1) as u64,
                    pos2,
                    wb@,
                ));
            }
            if k > hi_written {
                hi_written = k;
            }
            pos += take;
            proof {
                assert(k as int + 1 <= u64::MAX) by (nonlinear_arith)
                    requires
                        (k as int) < kcap as int + 1,
                        (kcap as int + 1) * cs <= u64::MAX,
                        cs >= 1,
                        kcap as int >= 0,
                ;
            }
            k = k + 1;
        }
        // 4. cover the written range, then write the dirty chunks back
        self.finish_window_range(hi_written);
        let ghost cur = *self;
        let ghost w2 = cur.window->Some_0;
        proof {
            assert(pos == wb@.len());
            assert(lo_off + wb@.len() <= k as int * cs);
            assert(k as int - 1 <= hi_written as int);
            assert(k as int * cs <= (hi_written as int + 1) * cs) by (nonlinear_arith)
                requires
                    k as int <= hi_written as int + 1,
                    cs > 0,
            ;
            assert((w0.hi_chunk as int + 1) * cs <= (hi_written as int + 1) * cs) by (
            nonlinear_arith)
                requires
                    w0.hi_chunk as int + 1 <= hi_written as int + 1,
                    cs > 0,
            ;
            assert(w2.hi_raw(cs) == (hi_written as int + 1) * cs) by {
                assert(w2.hi_chunk as int == imax(w0.hi_chunk as int, hi_written as int));
                assert(hi_written as int >= w0.hi_chunk as int);
            }
            assert(w2.hi_raw(cs) <= u64::MAX) by {
                assert(hi_written as int <= imax(w0.hi_chunk as int, kcap as int));
                if hi_written as int <= w0.hi_chunk as int {
                    assert((hi_written as int + 1) * cs <= (w0.hi_chunk as int + 1) * cs) by (
                    nonlinear_arith)
                        requires
                            hi_written as int <= w0.hi_chunk as int,
                            cs > 0,
                    ;
                } else {
                    assert(hi_written as int <= kcap as int);
                    assert((hi_written as int + 1) * cs <= (kcap as int + 1) * cs) by (
                    nonlinear_arith)
                        requires
                            hi_written as int + 1 <= kcap as int + 1,
                            cs > 0,
                    ;
                }
            }
            assert(cur.memstore.content_len() <= w2.hi_raw(cs)) by {
                assert(cur.memstore.content_len() == imax(c1len, lo_off + wb@.len()));
                assert(c1len <= imax(blen, (w0.hi_chunk as int + 1) * cs)) by {
                    assert forall|tt: int|
                        0 <= tt < pre.memstore.chunks@.len() && (
                        #[trigger] pre.memstore.chunks@[tt]).1.is_dirty() implies
                        pre.memstore.chunks@[tt].0 <= w0.hi_chunk by {
                        let kk = pre.memstore.chunks@[tt].0;
                        crate::memstore::lemma_sk_at_index(pre.memstore.chunks@, tt, kk);
                        assert(pre.memstore.chunk_at(kk).is_dirty());
                    }
                    pre.memstore.lemma_dirty_extent_bound(w0.hi_chunk);
                }
                assert(blen <= w0.hi_raw(cs));
            }
            // the cursor is well formed again before the write-back
            assert(cur.wf()) by {
                assert(w2.shape_ok()) by {
                    assert(w0.shape_ok());
                    assert forall|i: int| 0 <= i < w2.lines@.len() implies (
                    #[trigger] w2.lines@[i]).complete == ((i > 0 || w2.lo_chunk == 0) && (i + 1
                        < w2.lines@.len() || w2.at_eof)) by {
                        assert(w0.lines@[i].complete == ((i > 0 || w0.lo_chunk == 0) && (i + 1
                            < w0.lines@.len() || w0.at_eof)));
                    }
                }
                assert(w2.at_eof ==> w2.hi_raw(cs) >= cur.bs().len()) by {
                    assert(blen <= w0.hi_raw(cs) <= w2.hi_raw(cs));
                }
                assert forall|kk: u64| #![trigger cur.memstore.chunk_at(kk)]
                    cur.memstore.cached(kk) && cur.memstore.chunk_at(kk).is_dirty() implies
                    w2.lo_chunk <= kk <= w2.hi_chunk by {
                    assert(lo <= kk && (kk <= w0.hi_chunk || kk < k));
                }
                assert forall|kk: u64| w2.lo_chunk <= kk <= w2.hi_chunk implies #[trigger]
                cur.memstore.cached(kk) by {
                    if kk <= w0.hi_chunk {
                    } else {
                        assert(kk <= hi_written);
                        assert(kk < k);
                        assert(cur.memstore.chunk_at(kk) is Loaded);
                    }
                }
            }
            assert(cur.file() =~= pre.file()) by {
                assert(imin(w2.lo_off(cs), blen) == imin(w0.lo_off(cs), blen));
                assert(imin(w2.hi_raw(cs), blen) == blen);
                assert(imin(w0.hi_raw(cs), blen) == blen);
            }
        }
        let sres = self.memstore.store_all();
        match sres {
            Err(e) => {
                proof {
                    let msa = self.memstore;
                    assert(self.window == cur.window);
                    assert(self.wf()) by {
                        assert(w2.at_eof ==> w2.hi_raw(cs) >= msa.bs().len()) by {
                            assert(msa.bs().len() <= cur.memstore.content_len());
                        }
                        assert forall|kk: u64| #![trigger msa.chunk_at(kk)]
                            msa.cached(kk) && msa.chunk_at(kk).is_dirty() implies w2.lo_chunk
                            <= kk <= w2.hi_chunk by {
                            assert(cur.memstore.cached(kk));
                            assert(msa.chunk_at(kk).is_dirty() ==> cur.memstore.chunk_at(
                                kk,
                            ).is_dirty());
                        }
                        assert forall|kk: u64| #![trigger msa.chunk_at(kk)]
                            msa.cached(kk) && msa.chunk_at(kk) is Empty implies kk as int * cs
                            >= msa.content_len() by {
                            assert(cur.memstore.cached(kk));
                            assert(msa.chunk_at(kk).like(cur.memstore.chunk_at(kk)));
                            assert(cur.memstore.chunk_at(kk) is Empty);
                        }
                        assert forall|kk: u64| w2.lo_chunk <= kk <= w2.hi_chunk implies #[trigger]
                        msa.cached(kk) by {
                            assert(cur.memstore.cached(kk));
                        }
                        assert((w2.lines@.len() > 0 || self.window_dirty) ==> w2.lo_off(cs)
                            <= msa.bs().len()) by {
                            assert(msa.bs().len() >= cur.memstore.bs().len());
                        }
                    }
                    assert(self.file() =~= pre0.file()) by {
                        assert(pre.file() == pre0.file());
                        assert(imin(w2.hi_raw(cs), msa.bs().len() as int) == msa.bs().len())
                            by {
                            assert(msa.bs().len() <= cur.memstore.content_len() <= w2.hi_raw(
                                cs,
                            ));
                        }
                        assert(imin(w2.lo_off(cs), msa.bs().len() as int) == lo_off) by {
                            assert(msa.bs().len() >= blen >= lo_off);
                        }
                        assert forall|p: int| 0 <= p < lo_off implies msa.bs()[p]
                            == pre.bs()[p] by {
                            assert(!cur.memstore.dirty_covers(p)) by {
                                if cur.memstore.dirty_covers(p) {
                                    crate::memstore::lemma_chunk_of(p, cs);
                                    let kd = (p / cs) as u64;
                                    assert(lo <= kd);
                                    assert(lo as int * cs <= kd as int * cs) by (
                                    nonlinear_arith)
                                        requires
                                            lo as int <= kd as int,
                                            cs > 0,
                                    ;
                                    assert(p >= kd as int * cs);
                                }
                            }
                        }
                        assert(pre.file() =~= pre.bs().subrange(0, lo_off) + wb@);
                        assert(msa.bs().subrange(0, lo_off) =~= pre.bs().subrange(0, lo_off));
                    }
                }
                Err(e)
            },
            Ok(_) => {
                self.window = None;
                self.window_dirty = false;
                self.line_index_in_window = 0;
                proof {
                    let msa = self.memstore;
                    assert(self.wf()) by {
                        assert forall|kk: u64| #![trigger msa.chunk_at(kk)]
                            msa.cached(kk) && msa.chunk_at(kk) is Empty implies kk as int * cs
                            >= msa.content_len() by {
                            assert(cur.memstore.cached(kk));
                            assert(msa.chunk_at(kk).like(cur.memstore.chunk_at(kk)));
                            assert(cur.memstore.chunk_at(kk) is Empty);
                            assert(msa.content_len() == cur.memstore.content_len());
                        }
                    }
                    // the persisted bytes now hold the flushed file
                    let flen = pre.file().len() as int;
                    assert(pre.file() =~= pre.bs().subrange(0, lo_off) + wb@);
                    assert(flen == lo_off + wb@.len());
                    assert(msa.bs().len() == imax(c1len, lo_off + wb@.len()));
                    assert(msa.bs().len() >= flen);
                    assert forall|p: int| 0 <= p < flen implies msa.bs()[p] == pre.file()[p] by {
                        assert(msa.bs()[p] == cur.memstore.content_at(p));
                        if p < lo_off {
                            assert(cur.memstore.content_at(p) == pre.memstore.content_at(p));
                            assert(!pre.memstore.dirty_covers(p)) by {
                                if pre.memstore.dirty_covers(p) {
                                    crate::memstore::lemma_chunk_of(p, cs);
                                    let kd = (p / cs) as u64;
                                    assert(lo <= kd <= w0.hi_chunk);
                                    assert(lo as int * cs <= kd as int * cs) by (
                                    nonlinear_arith)
                                        requires
                                            lo as int <= kd as int,
                                            cs > 0,
                                    ;
                                    assert(p >= kd as int * cs);
                                }
                            }
                            pre.memstore.lemma_content_at_clean(p);
                            assert(pre.file()[p] == pre.bs()[p]);
                        } else {
                            assert(cur.memstore.content_at(p) == wb@[p - lo_off]);
                        }
                    }
                    assert(msa.bs().subrange(0, flen) =~= pre.file());
                    assert(self.file() == msa.bs());
                    assert(pre0.file() == pre.file());
                    if flen >= c1len {
                        assert(msa.bs().len() == flen);
                        assert(msa.bs() =~= pre.file());
                    }
                }
                Ok(())
            },
        }
    }
}

} // verus!

verus! {

/// The positions `insert` accepts: inside the window, not displacing the
/// head fragment of a window that does not start the file, not past the
/// open tail fragment, and not an empty line after a final line that no
/// terminator ends.
pub open spec fn insert_in_range(w: Window, li: int, bytes: Seq<u8>) -> bool {
    let n = w.lines@.len() as int;
    &&& (if w.lo_chunk == 0 {
        0 <= li <= n
    } else {
        w.lines@.len() > 0 && 1 <= li <= n
    })
    &&& (w.at_eof || li < n)
    &&& !(li == n && !w.trailing && bytes.len() == 0)
}

/// The positions `remove` accepts: an existing line that is not the head
/// or tail boundary fragment of the window.
pub open spec fn remove_in_range(w: Window, li: int) -> bool {
    let n = w.lines@.len() as int;
    &&& (if w.lo_chunk == 0 {
        0 <= li < n
    } else {
        1 <= li < n
    })
    &&& (w.at_eof || li + 1 < n)
}

impl<L: LoadStore> VirtualFile<L> {
    /// How many lines the current window holds.
    pub fn lines_len(&self) -> (r: usize)
        ensures
            r as int == (match self.window {
                Some(w) => w.lines@.len() as int,
                None => 0,
            }),
    {
        match &self.window {
            Some(w) => w.lines.len(),
            None => 0,
        }
    }

    /// The line at `line_index` in the current window.
    pub fn get(&self, line_index: usize) -> (r: Result<&LoadedLine, BufferError>)
        ensures
            match r {
                Ok(l) => match self.window {
                    Some(w) => line_index < w.lines@.len() && *l == w.lines@[line_index as int],
                    None => false,
                },
                Err(e) => {
                    &&& e == (BufferError::OutOfRange { index: line_index })
                    &&& match self.window {
                        Some(w) => line_index >= w.lines@.len(),
                        None => true,
                    }
                },
            },
    {
        match &self.window {
            Some(w) => {
                if line_index < w.lines.len() {
                    Ok(&w.lines[line_index])
                } else {
                    Err(BufferError::OutOfRange { index: line_index })
                }
            },
            None => Err(BufferError::OutOfRange { index: line_index }),
        }
    }

    /// Yield the line at the cursor and advance. When the cursor stands on
    /// the window's trailing fragment, the window is first extended chunk
    /// by chunk until the line is complete or the file ends, so a line
    /// whose bytes straddle chunk boundaries is returned whole. `None`
    /// signals the end of the stream.
    pub fn next_line(&mut self) -> (r: Result<Option<LoadedLine>, BufferError>)
        requires
            old(self).wf(),
        ensures
            final(self).wf(),
            final(self).chunk_size == old(self).chunk_size,
            final(self).file() == old(self).file(),
            final(self).bs() == old(self).bs(),
            final(self).window_dirty == old(self).window_dirty,
            final(self).memstore.load_store.store_count() == old(
                self,
            ).memstore.load_store.store_count(),
            ({
                let eff: int = match old(self).window {
                    Some(_) => old(self).line_index_in_window as int,
                    None => 0,
                };
                match r {
                    Ok(rr) => match rr {
                        Some(l) => match final(self).window {
                            Some(w) => {
                                &&& eff < w.lines@.len()
                                &&& l.bytes@ == lines_view(w.lines@)[eff]
                                &&& l.complete == w.lines@[eff].complete
                                &&& final(self).line_index_in_window == eff + 1
                                &&& (eff + 1 < w.lines@.len() || w.at_eof)
                                &&& (w.lo_chunk == 0 ==> l.complete)
                            },
                            None => false,
                        },
                        None => match final(self).window {
                            Some(w) => w.at_eof && final(self).line_index_in_window as int
                                >= w.lines@.len(),
                            None => false,
                        },
                    },
                    Err(_) => true,
                }
            }),
            (match old(self).window {
                Some(w) => w.lo_chunk as int,
                None => 0,
            }) == (match final(self).window {
                Some(w) => w.lo_chunk as int,
                None => 0,
            }),
            (match old(self).window {
                Some(w) => old(self).line_index_in_window < w.lines@.len() && (old(
                    self,
                ).line_index_in_window + 1 < w.lines@.len() || w.at_eof),
                None => false,
            }) ==> r matches Ok(Some(_)),
            (match old(self).window {
                Some(w) => w.at_eof && old(self).line_index_in_window >= w.lines@.len(),
                None => false,
            }) ==> r matches Ok(None),
    {
        let ghost pre0 = *old(self);
        let ghost have_line: bool = match old(self).window {
            Some(w) => old(self).line_index_in_window < w.lines@.len() && (old(
                self,
            ).line_index_in_window + 1 < w.lines@.len() || w.at_eof),
            None => false,
        };
        let ghost at_end: bool = match old(self).window {
            Some(w) => w.at_eof && old(self).line_index_in_window >= w.lines@.len(),
            None => false,
        };
        if self.window.is_none() {
            match self.load_fresh(0) {
                Ok(_) => {},
                Err(e) => {
                    return Err(e);
                },
            }
        }
        let ghost eff = self.line_index_in_window as int;
        loop
            invariant
                pre0 == *old(self),
                self.wf(),
                self.window is Some,
                self.chunk_size == pre0.chunk_size,
                self.file() == pre0.file(),
                self.bs() == pre0.bs(),
                self.window_dirty == pre0.window_dirty,
                self.memstore.load_store.store_count()
                    == pre0.memstore.load_store.store_count(),
                have_line == (match pre0.window {
                    Some(w) => pre0.line_index_in_window < w.lines@.len() && (
                    pre0.line_index_in_window + 1 < w.lines@.len() || w.at_eof),
                    None => false,
                }),
                at_end == (match pre0.window {
                    Some(w) => w.at_eof && pre0.line_index_in_window >= w.lines@.len(),
                    None => false,
                }),
                have_line ==> self.window == pre0.window && self.line_index_in_window
                    == pre0.line_index_in_window,
                at_end ==> self.window == pre0.window && self.line_index_in_window
                    == pre0.line_index_in_window,
                self.line_index_in_window as int == eff,
                eff == (match pre0.window {
                    Some(_) => pre0.line_index_in_window as int,
                    None => 0,
                }),
                (match pre0.window {
                    Some(w) => w.lo_chunk as int,
                    None => 0,
                }) == self.window->Some_0.lo_chunk as int,
            decreases imax(
                self.bs().len() as int + self.cs() - self.window->Some_0.hi_raw(self.cs()),
                0,
            ) + (if self.window->Some_0.at_eof {
                0int
            } else {
                1int
            }),
        {
            let (n, at_eof) = match &self.window {
                Some(w) => (w.lines.len(), w.at_eof),
                None => unreached(),
            };
            let idx = self.line_index_in_window;
            if idx < n && (idx + 1 < n || at_eof) {
                let l = match &self.window {
                    Some(w) => {
                        let mut bytes: Vec<u8> = Vec::new();
                        let mut t: usize = 0;
                        let src = &w.lines[idx];
                        while t < src.bytes.len()
                            invariant
                                t <= src.bytes@.len(),
                                bytes@ == src.bytes@.take(t as int),
                            decreases src.bytes@.len() - t,
                        {
                            bytes.push(src.bytes[t]);
                            proof {
                                assert(bytes@ =~= src.bytes@.take(t as int + 1));
                            }
                            t += 1;
                        }
                        proof {
                            assert(bytes@ =~= src.bytes@);
                        }
                        LoadedLine { bytes, complete: src.complete }
                    },
                    None => unreached(),
                };
                self.line_index_in_window = idx + 1;
                proof {
                    let w = self.window->Some_0;
                    assert(l.bytes@ == w.lines@[eff].bytes@);
                    assert(lines_view(w.lines@)[eff] == w.lines@[eff].bytes@);
                    if w.lo_chunk == 0 {
                        assert(w.lines@[eff].complete == ((eff > 0 || true) && (eff + 1
                            < w.lines@.len() || w.at_eof)));
                    }
                }
                return Ok(Some(l));
            }
            if at_eof {
                return Ok(None);
            }
            let ghost hprev = self.window->Some_0.hi_raw(self.cs());
            match self.extend_forward() {
                Ok(_) => {},
                Err(e) => {
                    return Err(e);
                },
            }
            proof {
                let w = self.window->Some_0;
                assert(w.hi_raw(self.cs()) == hprev + self.cs()) by (nonlinear_arith)
                    requires
                        w.hi_raw(self.cs()) == (w.hi_chunk as int + 1) * self.cs(),
                        hprev == w.hi_chunk as int * self.cs(),
                ;
            }
        }
    }

    /// Insert a line before position `line_index` of the window (at the
    /// end, when `line_index` equals the line count and the window reaches
    /// the file end). The owning region is re-chunked and persisted by
    /// `flush_all`. Boundary fragments cannot be displaced: inserting at
    /// the head of a window that does not start the file, past the open
    /// tail fragment, or appending an empty line to a file that does not
    /// end in a terminator is out of range.
    pub fn insert(&mut self, line_index: usize, new_line: LoadedLine) -> (r: Result<
        (),
        BufferError,
    >)
        requires
            old(self).wf(),
            !new_line.bytes@.contains(NL),
        ensures
            final(self).wf(),
            final(self).chunk_size == old(self).chunk_size,
            final(self).bs() == old(self).bs(),
            match r {
                Ok(_) => {
                    &&& final(self).window_dirty
                    &&& match (final(self).window, old(self).window) {
                        (Some(w2), Some(w1)) => {
                            &&& lines_view(w2.lines@) == lines_view(w1.lines@).insert(
                                line_index as int,
                                new_line.bytes@,
                            )
                            &&& w2.lo_chunk == w1.lo_chunk
                            &&& w2.hi_chunk == w1.hi_chunk
                            &&& w2.trailing == w1.trailing
                            &&& w2.at_eof == w1.at_eof
                        },
                        _ => false,
                    }
                },
                Err(e) => {
                    &&& e == (BufferError::OutOfRange { index: line_index })
                    &&& *final(self) == *old(self)
                },
            },
            r is Err <==> (match old(self).window {
                Some(w) => !insert_in_range(w, line_index as int, new_line.bytes@),
                None => true,
            }),
    {
        let ghost pre = *old(self);
        match &mut self.window {
            None => Err(BufferError::OutOfRange { index: line_index }),
            Some(w) => {
                let n = w.lines.len();
                let lo_ok = if w.lo_chunk == 0 {
                    line_index <= n
                } else {
                    n > 0 && 1 <= line_index && line_index <= n
                };
                let hi_ok = if w.at_eof {
                    true
                } else {
                    line_index < n
                };
                let end_ok = !(line_index == n && !w.trailing && new_line.bytes.len() == 0);
                if !(lo_ok && hi_ok && end_ok) {
                    return Err(BufferError::OutOfRange { index: line_index });
                }
                let ghost w1 = pre.window->Some_0;
                let complete = (line_index > 0 || w.lo_chunk == 0) && (line_index < n
                    || w.at_eof);
                w.lines.insert(line_index, LoadedLine { bytes: new_line.bytes, complete });
                self.window_dirty = true;
                proof {
                    let w2 = self.window->Some_0;
                    let li = line_index as int;
                    assert(w2.lines@ == w1.lines@.insert(
                        li,
                        LoadedLine { bytes: w2.lines@[li].bytes, complete },
                    ));
                    assert(lines_view(w2.lines@) =~~= lines_view(w1.lines@).insert(
                        li,
                        new_line.bytes@,
                    )) by {
                        assert forall|t: int| 0 <= t < w2.lines@.len() implies lines_view(
                            w2.lines@,
                        )[t] == lines_view(w1.lines@).insert(li, new_line.bytes@)[t] by {
                            if t < li {
                                assert(w2.lines@[t] == w1.lines@[t]);
                                assert(lines_view(w1.lines@)[t] == w1.lines@[t].bytes@);
                            } else if t > li {
                                assert(w2.lines@[t] == w1.lines@[t - 1]);
                                assert(lines_view(w1.lines@)[t - 1] == w1.lines@[t - 1].bytes@);
                            }
                        }
                    }
                    assert(self.wf()) by {
                        assert(w2.shape_ok()) by {
                            assert(w1.shape_ok());
                            assert(pieces_have_no_nl(lines_view(w2.lines@))) by {
                                assert forall|i: int|
                                    0 <= i < lines_view(w2.lines@).len() implies !(
                                #[trigger] lines_view(w2.lines@)[i]).contains(NL) by {
                                    if i < li {
                                        assert(lines_view(w2.lines@)[i] == w1.lines@[i].bytes@);
                                        assert(!lines_view(w1.lines@)[i].contains(NL));
                                    } else if i == li {
                                    } else {
                                        assert(lines_view(w2.lines@)[i] == w1.lines@[i
                                            - 1].bytes@);
                                        assert(!lines_view(w1.lines@)[i - 1].contains(NL));
                                    }
                                }
                            }
                            assert(w2.flags_ok()) by {
                                assert forall|i: int| 0 <= i < w2.lines@.len() implies (
                                #[trigger] w2.lines@[i]).complete == ((i > 0 || w2.lo_chunk == 0)
                                    && (i + 1 < w2.lines@.len() || w2.at_eof)) by {
                                    assert(w1.flags_ok());
                                    if i < li {
                                        assert(w2.lines@[i] == w1.lines@[i]);
                                        assert(w1.lines@[i].complete == ((i > 0 || w1.lo_chunk
                                            == 0) && (i + 1 < w1.lines@.len() || w1.at_eof)));
                                    } else if i > li {
                                        assert(w2.lines@[i] == w1.lines@[i - 1]);
                                        assert(w1.lines@[i - 1].complete == ((i - 1 > 0
                                            || w1.lo_chunk == 0) && (i < w1.lines@.len()
                                            || w1.at_eof)));
                                    }
                                }
                            }
                            if w2.at_eof && !w2.trailing && w2.lines@.len() > 0 {
                                assert(w2.lines@[w2.lines@.len() - 1].bytes@.len() > 0) by {
                                    if li + 1 == w2.lines@.len() {
                                        assert(w2.lines@[li].bytes@ == new_line.bytes@);
                                    } else {
                                        assert(w2.lines@[w2.lines@.len() - 1]
                                            == w1.lines@[w1.lines@.len() - 1]);
                                    }
                                }
                            }
                        }
                        assert(w2.lo_off(self.cs()) <= self.bs().len()) by {
                            if w1.lines@.len() > 0 || pre.window_dirty {
                            } else {
                                assert(w1.lo_chunk == 0);
                                assert(w2.lo_off(self.cs()) == 0) by (nonlinear_arith)
                                    requires
                                        w2.lo_off(self.cs()) == w2.lo_chunk as int * self.cs(),
                                        w2.lo_chunk == 0,
                                ;
                            }
                        }
                    }
                }
                Ok(())
            },
        }
    }

    /// Remove and return the line at position `line_index` of the window.
    /// The open boundary fragments at the window's edges cannot be
    /// removed.
    pub fn remove(&mut self, line_index: usize) -> (r: Result<LoadedLine, BufferError>)
        requires
            old(self).wf(),
        ensures
            final(self).wf(),
            final(self).chunk_size == old(self).chunk_size,
            final(self).bs() == old(self).bs(),
            match r {
                Ok(l) => {
                    &&& final(self).window_dirty
                    &&& match (final(self).window, old(self).window) {
                        (Some(w2), Some(w1)) => {
                            &&& line_index < w1.lines@.len()
                            &&& l.bytes@ == lines_view(w1.lines@)[line_index as int]
                            &&& lines_view(w2.lines@) == lines_view(w1.lines@).remove(
                                line_index as int,
                            )
                            &&& w2.lo_chunk == w1.lo_chunk
                            &&& w2.hi_chunk == w1.hi_chunk
                        },
                        _ => false,
                    }
                },
                Err(e) => {
                    &&& e == (BufferError::OutOfRange { index: line_index })
                    &&& *final(self) == *old(self)
                },
            },
            r is Err <==> (match old(self).window {
                Some(w) => !remove_in_range(w, line_index as int),
                None => true,
            }),
    {
        let ghost pre = *old(self);
        match &mut self.window {
            None => Err(BufferError::OutOfRange { index: line_index }),
            Some(w) => {
                let n = w.lines.len();
                let lo_ok = if w.lo_chunk == 0 {
                    line_index < n
                } else {
                    1 <= line_index && line_index < n
                };
                let hi_ok = if w.at_eof {
                    true
                } else {
                    n >= 2 && line_index <= n - 2
                };
                if !(lo_ok && hi_ok) {
                    return Err(BufferError::OutOfRange { index: line_index });
                }
                let ghost w1 = pre.window->Some_0;
                let removed = w.lines.remove(line_index);
                // removing the final line can expose an empty line before
                // it; record the terminator that line still owns
                let n2 = w.lines.len();
                if n2 == 0 {
                    w.trailing = false;
                } else if w.at_eof && !w.trailing && line_index == n2 {
                    let lastlen = w.lines[n2 - 1].bytes.len();
                    if lastlen == 0 {
                        w.trailing = true;
                    }
                }
                self.window_dirty = true;
                proof {
                    let w2 = self.window->Some_0;
                    let li = line_index as int;
                    assert(removed == w1.lines@[li]);
                    assert(lines_view(w1.lines@)[li] == w1.lines@[li].bytes@);
                    assert(lines_view(w2.lines@) =~~= lines_view(w1.lines@).remove(li)) by {
                        assert forall|t: int| 0 <= t < w2.lines@.len() implies lines_view(
                            w2.lines@,
                        )[t] == lines_view(w1.lines@).remove(li)[t] by {
                            if t < li {
                                assert(w2.lines@[t].bytes@ == w1.lines@[t].bytes@);
                            } else {
                                assert(w2.lines@[t].bytes@ == w1.lines@[t + 1].bytes@);
                            }
                        }
                    }
                    assert(self.wf()) by {
                        assert(w2.shape_ok()) by {
                            assert(w1.shape_ok());
                            assert(pieces_have_no_nl(lines_view(w2.lines@))) by {
                                assert forall|i: int|
                                    0 <= i < lines_view(w2.lines@).len() implies !(
                                #[trigger] lines_view(w2.lines@)[i]).contains(NL) by {
                                    if i < li {
                                        assert(w2.lines@[i].bytes@ == w1.lines@[i].bytes@);
                                        assert(!lines_view(w1.lines@)[i].contains(NL));
                                    } else {
                                        assert(w2.lines@[i].bytes@ == w1.lines@[i + 1].bytes@);
                                        assert(!lines_view(w1.lines@)[i + 1].contains(NL));
                                    }
                                }
                            }
                            assert(w2.flags_ok()) by {
                                assert forall|i: int| 0 <= i < w2.lines@.len() implies (
                                #[trigger] w2.lines@[i]).complete == ((i > 0 || w2.lo_chunk == 0)
                                    && (i + 1 < w2.lines@.len() || w2.at_eof)) by {
                                    assert(w1.flags_ok());
                                    if i < li {
                                        assert(w2.lines@[i] == w1.lines@[i]);
                                        assert(w1.lines@[i].complete == ((i > 0 || w1.lo_chunk
                                            == 0) && (i + 1 < w1.lines@.len() || w1.at_eof)));
                                    } else {
                                        assert(w2.lines@[i] == w1.lines@[i + 1]);
                                        assert(w1.lines@[i + 1].complete == ((i + 1 > 0
                                            || w1.lo_chunk == 0) && (i + 2 < w1.lines@.len()
                                            || w1.at_eof)));
                                    }
                                }
                            }
                        }
                        assert(w2.lo_off(self.cs()) <= self.bs().len());
                    }
                }
                Ok(removed)
            },
        }
    }

    /// Tear the cursor down, handing the backing store back.
    pub fn into_load_store(self) -> (r: L)
        ensures
            r == self.memstore.load_store,
    {
        self.memstore.into_load_store()
    }

    /// The round-trip law of the traversal: a window that covers the whole
    /// file from its start holds exactly the file's logical lines — the
    /// same lines that splitting the file's bytes on the terminator gives,
    /// every one of them complete. Lines that straddle chunk boundaries
    /// are therefore never returned in pieces.
    pub proof fn lemma_full_window_lines(&self)
        requires
            self.wf(),
            self.window is Some,
            self.window->Some_0.lo_chunk == 0,
            self.window->Some_0.at_eof,
        ensures
            lines_view(self.window->Some_0.lines@) =~~= lines_of(self.file()),
            forall|i: int|
                0 <= i < self.window->Some_0.lines@.len()
                    ==> (#[trigger] self.window->Some_0.lines@[i]).complete || (i + 1
                    == self.window->Some_0.lines@.len() && !self.window->Some_0.at_eof),
    {
        let w = self.window->Some_0;
        assert(w.lo_off(self.cs()) == 0) by (nonlinear_arith)
            requires
                w.lo_off(self.cs()) == w.lo_chunk as int * self.cs(),
                w.lo_chunk == 0,
        ;
        assert(self.file() =~= w.wbytes()) by {
            assert(imin(w.lo_off(self.cs()), self.bs().len() as int) == 0) by {
                assert(self.bs().len() >= 0);
            }
            assert(imin(w.hi_raw(self.cs()), self.bs().len() as int) == self.bs().len());
        }
        lemma_lines_of_joined(lines_view(w.lines@), w.trailing);
        assert forall|i: int| 0 <= i < w.lines@.len() implies (#[trigger] w.lines@[i]).complete
            || (i + 1 == w.lines@.len() && !w.at_eof) by {
            assert(w.lines@[i].complete == ((i > 0 || w.lo_chunk == 0) && (i + 1 < w.lines@.len()
                || w.at_eof)));
        }
    }
}

} // verus!

verus! {

impl<L: LoadStore> VirtualFile<L> {
    /// The splice-reuse law: two unedited cursors over the same file whose
    /// windows start at the same chunk agree on every complete line of the
    /// shorter window, whatever further chunks the longer one has spliced
    /// on. Seeking ahead and back therefore loses no information over
    /// seeking directly.
    pub proof fn lemma_window_agreement(a: &Self, b: &Self, j: int)
        requires
            a.wf(),
            b.wf(),
            !a.window_dirty,
            !b.window_dirty,
            a.file() == b.file(),
            a.window is Some,
            b.window is Some,
            a.window->Some_0.lo_chunk == b.window->Some_0.lo_chunk,
            a.window->Some_0.hi_chunk >= b.window->Some_0.hi_chunk,
            a.chunk_size == b.chunk_size,
            0 <= j < b.window->Some_0.lines@.len(),
            b.window->Some_0.lines@[j].complete,
        ensures
            j < a.window->Some_0.lines@.len(),
            a.window->Some_0.lines@[j].bytes@ == b.window->Some_0.lines@[j].bytes@,
    {
        let wa = a.window->Some_0;
        let wb = b.window->Some_0;
        let cs = a.cs();
        a.lemma_clean_file();
        b.lemma_clean_file();
        let f = a.bs();
        let flen = f.len() as int;
        Self::lemma_window_offsets(&wa, cs);
        Self::lemma_window_offsets(&wb, cs);
        let lo = imin(wa.lo_off(cs), flen);
        let ma = imin(wa.hi_raw(cs), flen);
        let mb = imin(wb.hi_raw(cs), flen);
        assert(wb.hi_raw(cs) <= wa.hi_raw(cs)) by (nonlinear_arith)
            requires
                wb.hi_chunk as int + 1 <= wa.hi_chunk as int + 1,
                cs > 0,
                wb.hi_raw(cs) == (wb.hi_chunk as int + 1) * cs,
                wa.hi_raw(cs) == (wa.hi_chunk as int + 1) * cs,
        ;
        assert(mb <= ma);
        assert(wa.wbytes() == f.subrange(lo, ma));
        assert(wb.wbytes() == f.subrange(lo, mb));
        let ext = f.subrange(mb, ma);
        assert(wa.wbytes() =~= wb.wbytes() + ext);
        let la = lines_view(wa.lines@);
        let lb = lines_view(wb.lines@);
        // each window's lines are the split pieces of its bytes, up to the
        // recorded trailing terminator
        assert(pieces_have_no_nl(la) && la.len() == 0 ==> !wa.trailing);
        lemma_split_join_window(la, wa.trailing);
        lemma_split_join_window(lb, wb.trailing);
        let sa = split_bytes(wa.wbytes());
        let sb = split_bytes(wb.wbytes());
        assert(lb[j] == sb[j]);
        if j < sb.len() - 1 {
            lemma_split_prefix_stable(wb.wbytes(), ext, j);
            assert(sa[j] == sb[j]);
            assert(j < sa.len() - 1);
            assert(la.len() >= sa.len() - 1);
            assert(la[j] == sa[j]);
        } else {
            // the complete last line of a window that reaches the file end:
            // there the two windows hold the same bytes
            assert(j == sb.len() - 1);
            assert(!wb.trailing) by {
                if wb.trailing {
                    assert(sb.len() == lb.len() + 1);
                }
            }
            assert(wb.at_eof) by {
                assert(wb.lines@[j].complete == ((j > 0 || wb.lo_chunk == 0) && (j + 1
                    < wb.lines@.len() || wb.at_eof)));
            }
            assert(mb == flen) by {
                assert(wb.hi_raw(cs) >= flen);
            }
            assert(ext.len() == 0);
            assert(wa.wbytes() =~= wb.wbytes());
            assert(sa =~~= sb);
            assert(!wa.trailing) by {
                if wa.trailing {
                    // the shared bytes would end in a terminator, but the
                    // shorter window's last piece is a complete non-empty
                    // line
                    assert(sa.len() == la.len() + 1);
                    assert(la.push(Seq::<u8>::empty()) =~~= sa);
                    assert(sa[sa.len() - 1].len() == 0);
                    assert(sb[j].len() > 0) by {
                        assert(lb[j].len() > 0) by {
                            assert(wb.lines@[j].bytes@.len() > 0);
                        }
                    }
                    assert(j == sa.len() - 1 || sb[j] == sa[j]);
                    if j < sa.len() - 1 {
                        assert(sa.len() - 1 == sb.len() - 1);
                        assert(false);
                    } else {
                        assert(false);
                    }
                }
            }
            assert(la =~~= sa);
            assert(la[j] == sb[j]);
        }
    }
}

/// A window's line pieces split back out of its joined bytes: the pieces,
/// plus one empty piece where a trailing terminator is recorded.
pub proof fn lemma_split_join_window(l: Seq<Seq<u8>>, t: bool)
    requires
        pieces_have_no_nl(l),
        l.len() == 0 ==> !t,
    ensures
        !t ==> split_bytes(joined_bytes(l, t)) =~~= (if l.len() == 0 {
            seq![Seq::<u8>::empty()]
        } else {
            l
        }),
        t ==> split_bytes(joined_bytes(l, t)) =~~= l.push(Seq::<u8>::empty()),
        split_bytes(joined_bytes(l, t)).len() >= l.len(),
        forall|j: int| 0 <= j < l.len() ==> #[trigger] split_bytes(joined_bytes(l, t))[j] == l[j]
            || (j == l.len() - 1 && !t && l.len() > 0),
{
    if l.len() == 0 {
        assert(joined_bytes(l, t) =~= Seq::<u8>::empty());
        assert(split_bytes(Seq::<u8>::empty()) =~~= seq![Seq::<u8>::empty()]);
    } else if t {
        crate::lines::lemma_split_join(l);
        crate::lines::lemma_split_snoc(join_bytes(l), NL);
        assert(joined_bytes(l, t) =~= join_bytes(l).push(NL));
        assert(split_bytes(joined_bytes(l, t)) =~~= l.push(Seq::<u8>::empty()));
    } else {
        crate::lines::lemma_split_join(l);
        assert(joined_bytes(l, t) =~= join_bytes(l));
        assert(split_bytes(joined_bytes(l, t)) =~~= l);
    }
}

} // verus!

verus! {

impl<L: LoadStore> VirtualFile<L> {
    /// After the head stitch, the cursor is well formed and still
    /// presents the same file.
    #[verifier::rlimit(100)]
    proof fn lemma_extend_backward_wf(
        &self,
        pre: Self,
        mid: Self,
        w1: Window,
        prev: u64,
        koff: int,
        blen: int,
        q0: Seq<LoadedLine>,
        q_fixed: Seq<LoadedLine>,
        merged_v: LoadedLine,
    )
        requires
            pre.wf(),
            pre.window == Some(w1),
            w1.lo_chunk >= 1,
            w1.lines@.len() > 0,
            prev as int == w1.lo_chunk as int - 1,
            self.chunk_size == pre.chunk_size,
            self.window_dirty == pre.window_dirty,
            self.memstore == mid.memstore,
            mid.memstore.wf(),
            mid.chunk_size == pre.chunk_size,
            mid.memstore.chunk_size == pre.memstore.chunk_size,
            mid.memstore.bs() == pre.memstore.bs(),
            mid.memstore.content_len() == pre.memstore.content_len(),
            forall|kk: u64| #![trigger mid.memstore.cached(kk)]
                mid.memstore.cached(kk) == (pre.memstore.cached(kk) || kk == prev),
            forall|kk: u64| #![trigger mid.memstore.chunk_at(kk)]
                pre.memstore.cached(kk) ==> mid.memstore.chunk_at(kk) == pre.memstore.chunk_at(
                    kk,
                ),
            mid.memstore.chunks@ == pre.memstore.chunks@ || mid.memstore.chunks@
                == pre.memstore.chunks@.push((prev, mid.memstore.chunk_at(prev))),
            mid.memstore.cached(prev),
            mid.memstore.chunk_at(prev) is Loaded,
            !mid.memstore.chunk_at(prev).is_dirty(),
            koff == prev as int * pre.cs(),
            blen == pre.bs().len(),
            koff >= 0,
            koff + pre.cs() == w1.lo_off(pre.cs()),
            koff + pre.cs() <= blen,
            mid.memstore.chunk_at(prev).spec_data() == pre.bs().subrange(koff, koff + pre.cs()),
            pieces_have_no_nl(lines_view(q0)),
            join_bytes(lines_view(q0)) == mid.memstore.chunk_at(prev).spec_data(),
            q0.len() >= 1,
            forall|i: int|
                0 <= i < q0.len() ==> (#[trigger] q0[i]).complete == (i + 1 < q0.len()),
            self.window is Some,
            ({
                let w2 = self.window->Some_0;
                &&& w2.lo_chunk == prev
                &&& w2.hi_chunk == w1.hi_chunk
                &&& w2.at_eof == w1.at_eof
                &&& w2.trailing == w1.trailing
                &&& w2.lines@ == q_fixed.push(merged_v) + w1.lines@.remove(0)
            }),
            q_fixed.len() == q0.len() - 1,
            forall|i: int|
                0 <= i < q_fixed.len() ==> (#[trigger] q_fixed[i]).bytes@ == q0[i].bytes@,
            forall|i: int|
                1 <= i < q_fixed.len() ==> (#[trigger] q_fixed[i]).complete == q0[i].complete,
            q_fixed.len() > 0 ==> q_fixed[0].complete == (if prev > 0 {
                false
            } else {
                q0[0].complete
            }),
            merged_v.bytes@ == q0.last().bytes@ + w1.lines@[0].bytes@,
            merged_v.complete == (((q0.len() - 1 > 0) || prev == 0) && (w1.lines@.len() - 1 > 0
                || w1.at_eof)),
        ensures
            self.wf(),
            self.file() == pre.file(),
            self.memstore.content_len() == pre.memstore.content_len(),
    {
        let qv = lines_view(q0);
        let d = pre.bs().subrange(koff, koff + pre.cs());
            let w2 = self.window->Some_0;
            let a = lines_view(w1.lines@);
            let nold = w1.lines@.len() as int;
            let qn = q0.len() as int;
            let merged = merged_v;
            // element-wise shape of the new line sequence
            assert(q_fixed.len() == qn - 1);
            assert(w2.lines@ == q_fixed.push(merged) + w1.lines@.remove(0));
            assert(w2.lines@.len() == qn + nold - 1);
            assert forall|i: int| 0 <= i < qn - 1 implies #[trigger] w2.lines@[i].bytes@
                == q0[i].bytes@ by {
                assert(w2.lines@[i] == q_fixed[i]);
                assert(q_fixed[i].bytes@ == q0[i].bytes@);
            }
            assert(w2.lines@[qn - 1] == merged);
            assert forall|i: int| qn <= i < w2.lines@.len() implies #[trigger] w2.lines@[i]
                == w1.lines@[i - qn + 1] by {
                assert(w2.lines@[i] == w1.lines@.remove(0)[i - qn]);
                assert(w1.lines@.remove(0)[i - qn] == w1.lines@[i - qn + 1]);
            }
            assert(merged.bytes@ =~= qv.last() + a[0]) by {
                assert(a[0] == w1.lines@[0].bytes@);
                assert(qv.last() == q0.last().bytes@);
            }
            assert(lines_view(w2.lines@) =~~= qv.drop_last() + seq![qv.last() + a[0]] + a.skip(
                1,
            )) by {
                assert forall|i: int| 0 <= i < w2.lines@.len() implies lines_view(w2.lines@)[i]
                    == (qv.drop_last() + seq![qv.last() + a[0]] + a.skip(1))[i] by {
                    assert(lines_view(w2.lines@)[i] == w2.lines@[i].bytes@);
                    if i < qn - 1 {
                        assert(w2.lines@[i].bytes@ == q0[i].bytes@);
                        assert(qv.drop_last()[i] == qv[i]);
                        assert(qv[i] == q0[i].bytes@);
                    } else if i == qn - 1 {
                        assert(w2.lines@[i] == merged);
                    } else {
                        assert(w2.lines@[i] == w1.lines@[i - qn + 1]);
                        assert(a.skip(1)[i - qn] == a[i - qn + 1]);
                        assert(a[i - qn + 1] == w1.lines@[i - qn + 1].bytes@);
                    }
                }
            }
            lemma_join_stitch(qv, a);
            assert(w2.wbytes() =~= d + w1.wbytes()) by {
                assert(join_bytes(lines_view(w2.lines@)) == join_bytes(qv) + join_bytes(a));
                assert(w2.trailing == w1.trailing);
            }
            assert(pieces_have_no_nl(lines_view(w2.lines@))) by {
                assert forall|i: int| 0 <= i < lines_view(w2.lines@).len() implies !(
                #[trigger] lines_view(w2.lines@)[i]).contains(NL) by {
                    let a2 = lines_view(w2.lines@);
                    if i < qn - 1 {
                        assert(a2[i] == qv[i]);
                        assert(!qv[i].contains(NL));
                    } else if i == qn - 1 {
                        assert(a2[i] == qv.last() + a[0]);
                        assert(!qv.last().contains(NL));
                        assert(!a[0].contains(NL));
                        assert forall|t: int| 0 <= t < a2[i].len() implies a2[i][t] != NL by {
                            if t < qv.last().len() {
                                assert(a2[i][t] == qv.last()[t]);
                            } else {
                                assert(a2[i][t] == a[0][t - qv.last().len()]);
                            }
                        }
                    } else {
                        assert(a2[i] == a[i - qn + 1]);
                        assert(!a[i - qn + 1].contains(NL));
                    }
                }
            }
            assert(w2.flags_ok()) by {
                assert forall|i: int| 0 <= i < w2.lines@.len() implies (
                #[trigger] w2.lines@[i]).complete == ((i > 0 || w2.lo_chunk == 0) && (i + 1
                    < w2.lines@.len() || w2.at_eof)) by {
                    assert(w1.flags_ok());
                    if i < qn - 1 {
                        assert(w2.lines@[i] == q_fixed[i]);
                        if i == 0 {
                            if w2.lo_chunk > 0 {
                                assert(q_fixed[0].complete == false);
                            } else {
                                assert(q_fixed[0].complete == q0[0].complete);
                                assert(q0[0].complete == (1 < q0.len() || false));
                            }
                        } else {
                            assert(q_fixed[i].complete == q0[i].complete);
                            assert(q0[i].complete == (i + 1 < q0.len() || false));
                        }
                    } else if i == qn - 1 {
                        assert(w2.lines@[i].complete == (((qn - 1 > 0) || w2.lo_chunk == 0) && (
                        nold - 1 > 0 || w2.at_eof)));
                    } else {
                        assert(w2.lines@[i] == w1.lines@[i - qn + 1]);
                        assert(w1.lines@[i - qn + 1].complete == ((i - qn + 1 > 0
                            || w1.lo_chunk == 0) && (i - qn + 2 < nold || w1.at_eof)));
                        assert(i - qn + 1 >= 1);
                    }
                }
            }
            // the final line is untouched, so the end-of-file shape holds
            if w2.at_eof && !w2.trailing && w2.lines@.len() > 0 {
                assert(w2.lines@[w2.lines@.len() - 1].bytes@.len() > 0) by {
                    if nold >= 2 {
                        assert(w2.lines@[w2.lines@.len() - 1] == w1.lines@[nold - 1]);
                        assert(w1.lines@[nold - 1].bytes@.len() > 0);
                    } else {
                        assert(w2.lines@.len() - 1 == qn - 1);
                        assert(merged.bytes@.len() >= a[0].len());
                        assert(a[0].len() > 0) by {
                            assert(w1.lines@[0].bytes@.len() > 0);
                        }
                    }
                }
            }
            // coverage, bookkeeping, and the logical file
            assert(w2.lo_off(self.cs()) == koff);
            assert(w2.hi_raw(self.cs()) == w1.hi_raw(pre.cs()));
            assert(imin(w1.lo_off(pre.cs()), blen) == w1.lo_off(pre.cs()));
            assert(imin(w2.lo_off(self.cs()), blen) == koff);
            if !self.window_dirty {
                assert(w2.wbytes() == self.bs().subrange(
                    koff,
                    imin(w2.hi_raw(self.cs()), blen),
                )) by {
                    Self::lemma_window_offsets(&w1, pre.cs());
                    assert(!pre.window_dirty);
                    assert(w1.wbytes() == pre.bs().subrange(
                        imin(w1.lo_off(pre.cs()), blen),
                        imin(w1.hi_raw(pre.cs()), blen),
                    ));
                    assert(imin(w1.lo_off(pre.cs()), blen) == w1.lo_off(pre.cs()));
                    assert(imin(w1.hi_raw(pre.cs()), blen) >= w1.lo_off(pre.cs()));
                    assert(d == pre.bs().subrange(koff, w1.lo_off(pre.cs())));
                    assert(d + w1.wbytes() =~= pre.bs().subrange(
                        koff,
                        imin(w1.hi_raw(pre.cs()), blen),
                    ));
                }
            }
            assert(self.memstore.content_len() == pre.memstore.content_len());
            assert forall|kk: u64| #![trigger self.memstore.chunk_at(kk)]
                self.memstore.cached(kk) && self.memstore.chunk_at(kk).is_dirty() implies
                w2.lo_chunk <= kk <= w2.hi_chunk by {
                if pre.memstore.cached(kk) {
                    assert(self.memstore.chunk_at(kk) == pre.memstore.chunk_at(kk));
                    assert(w1.lo_chunk <= kk <= w1.hi_chunk);
                } else {
                    assert(kk == prev);
                    assert(!self.memstore.chunk_at(kk).is_dirty());
                }
            }
            assert forall|kk: u64| #![trigger self.memstore.chunk_at(kk)]
                self.memstore.cached(kk) && self.memstore.chunk_at(kk) is Empty implies kk as int
                * self.cs() >= self.memstore.content_len() by {
                if pre.memstore.cached(kk) {
                    assert(pre.memstore.chunk_at(kk) == self.memstore.chunk_at(kk));
                } else {
                    assert(kk == prev);
                    assert(!(self.memstore.chunk_at(kk) is Empty));
                }
            }
            assert forall|kk: u64| w2.lo_chunk <= kk <= w2.hi_chunk implies #[trigger]
            self.memstore.cached(kk) by {
                if kk == prev {
                } else {
                    assert(w1.lo_chunk <= kk <= w1.hi_chunk);
                    assert(self.memstore.cached(kk));
                }
            }
            if !self.window_dirty {
                assert forall|t: int|
                    0 <= t < self.memstore.chunks@.len() implies !(
                #[trigger] self.memstore.chunks@[t]).1.is_dirty() by {
                    if t < pre.memstore.chunks@.len() {
                        assert(!pre.memstore.chunks@[t].1.is_dirty());
                    } else {
                        assert(self.memstore.chunks@[t] == (prev, mid.memstore.chunk_at(prev)));
                    }
                }
            }
            assert(self.wf());
            assert(self.file() =~= pre.file()) by {
                assert(pre.bs().subrange(0, w1.lo_off(pre.cs())) =~= pre.bs().subrange(0, koff)
                    + d);
            }
    }

    /// Extend the window by the chunk just before it, stitching that
    /// chunk's trailing fragment to the window's head fragment so that a
    /// line straddling the boundary becomes one logical line. The cursor
    /// keeps its line: the index advances by the number of whole lines the
    /// prepended chunk contributes.
    #[verifier::rlimit(100)]
    fn extend_backward(&mut self) -> (r: Result<(), BufferError>)
        requires
            old(self).wf(),
            old(self).window is Some,
            old(self).window->Some_0.lo_chunk >= 1,
            old(self).window->Some_0.lines@.len() > 0,
        ensures
            final(self).wf(),
            final(self).chunk_size == old(self).chunk_size,
            final(self).file() == old(self).file(),
            final(self).bs() == old(self).bs(),
            final(self).memstore.content_len() == old(self).memstore.content_len(),
            final(self).window_dirty == old(self).window_dirty,
            final(self).memstore.load_store.store_count() == old(
                self,
            ).memstore.load_store.store_count(),
            final(self).memstore.load_store.load_count() == old(
                self,
            ).memstore.load_store.load_count() || final(self).memstore.load_store.load_count()
                == sat_inc(old(self).memstore.load_store.load_count()),
            final(self).window is Some,
            ({
                let w1 = old(self).window->Some_0;
                let w2 = final(self).window->Some_0;
                &&& (r is Ok ==> {
                    &&& w2.lo_chunk as int == w1.lo_chunk as int - 1
                    &&& w2.hi_chunk == w1.hi_chunk
                    &&& w2.at_eof == w1.at_eof
                    &&& w2.lines@.len() >= w1.lines@.len()
                    &&& final(self).line_index_in_window as int == old(
                        self,
                    ).line_index_in_window as int + (w2.lines@.len() - w1.lines@.len())
                    &&& (forall|j: int|
                        1 <= j < w1.lines@.len() ==> #[trigger] w2.lines@[j + (w2.lines@.len()
                            - w1.lines@.len())] == w1.lines@[j])
                })
                &&& (r is Err ==> w2 == w1 && final(self).line_index_in_window == old(
                    self,
                ).line_index_in_window)
            }),
    {
        let ghost pre = *old(self);
        let ghost w1 = pre.window->Some_0;
        let cs = self.chunk_size;
        let lo = match &self.window {
            Some(w) => w.lo_chunk,
            None => unreached(),
        };
        let prev = lo - 1;
        let ghost koff = prev as int * pre.cs();
        let ghost blen = pre.bs().len() as int;
        proof {
            Self::lemma_window_offsets(&w1, pre.cs());
            assert(koff + pre.cs() == w1.lo_off(pre.cs())) by (nonlinear_arith)
                requires
                    koff == (w1.lo_chunk as int - 1) * pre.cs(),
                    w1.lo_off(pre.cs()) == w1.lo_chunk as int * pre.cs(),
            ;
            assert(koff + pre.cs() <= blen);
            assert(koff >= 0) by (nonlinear_arith)
                requires
                    koff == (w1.lo_chunk as int - 1) * pre.cs(),
                    w1.lo_chunk >= 1,
                    pre.cs() > 0,
            ;
        }
        let parsed: Option<(Vec<LoadedLine>, bool)> = match self.memstore.get(prev) {
            Err(e) => {
                return Err(e);
            },
            Ok(c) => {
                proof {
                    if pre.memstore.cached(prev) {
                        let t = crate::memstore::sk_idx(pre.memstore.chunks@, prev);
                        crate::memstore::lemma_sk_at_index(pre.memstore.chunks@, t, prev);
                        assert(pre.memstore.entry_wf(pre.memstore.chunks@[t]));
                        assert(!pre.memstore.chunks@[t].1.is_dirty()) by {
                            if pre.memstore.chunks@[t].1.is_dirty() {
                                assert(pre.memstore.chunk_at(prev).is_dirty());
                                assert(w1.lo_chunk <= prev <= w1.hi_chunk);
                            }
                        }
                    }
                }
                match c {
                    Chunk::Loaded { data, need_store } => {
                        proof {
                            assert(data@ == pre.bs().subrange(
                                koff,
                                imin(koff + pre.cs(), blen),
                            ));
                            assert(imin(koff + pre.cs(), blen) == koff + pre.cs());
                            assert(data@.len() == pre.cs());
                        }
                        let (q, tr) = Self::parse_chunk(data, false);
                        Some((q, tr))
                    },
                    Chunk::Empty => {
                        proof {
                            assert(koff >= pre.memstore.content_len());
                            assert(pre.memstore.content_len() >= blen);
                            assert(false);
                        }
                        None
                    },
                }
            },
        };
        let ghost mid = *self;
        let (mut q, _tr) = match parsed {
            Some(p) => p,
            None => unreached(),
        };
        let ghost q0 = q@;
        let ghost qv = lines_view(q@);
        let ghost d = pre.bs().subrange(koff, koff + pre.cs());
        proof {
            assert(joined_bytes(qv, false) == d);
            assert(join_bytes(qv) =~= d);
            assert(q@.len() >= 1);
        }
        let qlen = q.len();
        let new_index = match self.line_index_in_window.checked_add(qlen - 1) {
            Some(i) => i,
            None => {
                return Err(BufferError::Load { chunk_index: prev });
            },
        };
        let ghost mut q_fixed: Seq<LoadedLine> = Seq::empty();
        let ghost mut merged_v: LoadedLine = arbitrary();
        match &mut self.window {
            Some(w) => {
                w.lo_chunk = prev;
                let frag = match q.pop() {
                    Some(f) => f,
                    None => unreached(),
                };
                let mut fb = frag.bytes;
                let first_old = w.lines.remove(0);
                let mut ob = first_old.bytes;
                fb.append(&mut ob);
                let merged_complete = ((qlen - 1 > 0) || prev == 0) && (w.lines.len() > 0
                    || w.at_eof);
                if prev > 0 && qlen > 1 {
                    let qf = &mut q[0];
                    qf.complete = false;
                }
                proof {
                    q_fixed = q@;
                    assert(fb@ =~= q0.last().bytes@ + w1.lines@[0].bytes@);
                }
                q.push(LoadedLine { bytes: fb, complete: merged_complete });
                proof {
                    merged_v = q@.last();
                }
                q.append(&mut w.lines);
                w.lines = q;
            },
            None => {
                proof {
                    assert(false);
                }
            },
        }
        proof {
            self.lemma_extend_backward_wf(
                pre,
                mid,
                w1,
                prev,
                koff,
                blen,
                q0,
                q_fixed,
                merged_v,
            );
            let w1l = w1.lines@.len() as int;
            let w2 = self.window->Some_0;
            assert forall|j: int| 1 <= j < w1l implies #[trigger] w2.lines@[j + (w2.lines@.len()
                - w1l)] == w1.lines@[j] by {
                assert(w2.lines@.len() - w1l == q_fixed.len());
                assert(w2.lines@[j + q_fixed.len()] == w1.lines@.remove(0)[j - 1]);
                assert(w1.lines@.remove(0)[j - 1] == w1.lines@[j]);
            }
        }
        self.line_index_in_window = new_index;
        Ok(())
    }
}

} // verus!
