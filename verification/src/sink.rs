//! The push interface between decoders and consumers of decoded text.

use vstd::prelude::*;

verus! {

/// A consumer of decoded text, driven by push calls.
///
/// This is a "push" interface: an incremental parser implements it and is
/// handed text as it is decoded, rather than pulling chunks from an
/// iterator.  A sink receives text chunks through [`process`](Self::process),
/// out-of-band error notices through [`error`](Self::error), and exactly one
/// [`finish`](Self::finish) at the end of the stream, after which no further
/// calls are made.
///
/// The two spec views [`texts`](Self::texts) and [`errors`](Self::errors)
/// are the abstract history of what the sink has received; every
/// implementation says how its own state records that history.  Two
/// lifecycle idioms are both available to implementations: accumulate in
/// place and read the state out after `finish` (the primary idiom here; see
/// [`Accumulate`]), or have a consuming extraction step of their own that
/// takes the sink by value and returns its aggregate result.
pub trait TendrilSink {
    /// The text chunks received so far, in order.
    spec fn texts(&self) -> Seq<Seq<char>>;

    /// The error notices received so far, in order.
    spec fn errors(&self) -> Seq<Seq<char>>;

    /// Accept one more chunk of decoded text, in stream order.
    fn process(&mut self, t: String)
        ensures
            final(self).texts() == old(self).texts().push(t@),
            final(self).errors() == old(self).errors(),
    ;

    /// Be notified that a lossy repair or decoding problem occurred.  Purely
    /// informational: the stream continues.
    fn error(&mut self, desc: String)
        ensures
            final(self).texts() == old(self).texts(),
            final(self).errors() == old(self).errors().push(desc@),
    ;

    /// Be notified of the end of the stream.  What was received is not
    /// altered by finishing.
    fn finish(&mut self)
        ensures
            final(self).texts() == old(self).texts(),
            final(self).errors() == old(self).errors(),
    ;

    /// Process one chunk and finish.
    fn one(&mut self, t: String)
        ensures
            final(self).texts() == old(self).texts().push(t@),
            final(self).errors() == old(self).errors(),
    {
        self.process(t);
        self.finish();
    }

    /// Process every chunk of `ts` in order, then finish.
    fn from_iter(&mut self, ts: Vec<String>)
        ensures
            final(self).texts() == old(self).texts() + ts@.map_values(|s: String| s@),
            final(self).errors() == old(self).errors(),
    {
        let ghost texts0 = self.texts();
        let ghost errs0 = self.errors();
        let mut i: usize = 0;
        while i < ts.len()
            invariant
                i <= ts@.len(),
                self.texts() == texts0 + ts@.take(i as int).map_values(|s: String| s@),
                self.errors() == errs0,
            decreases ts@.len() - i,
        {
            let t = ts[i].clone();
            self.process(t);
            proof {
                assert(ts@.take(i as int + 1).map_values(|s: String| s@) =~= ts@.take(
                    i as int,
                ).map_values(|s: String| s@).push(ts@[i as int]@));
                assert(texts0 + ts@.take(i as int).map_values(|s: String| s@).push(
                    ts@[i as int]@,
                ) =~= (texts0 + ts@.take(i as int).map_values(|s: String| s@)).push(
                    ts@[i as int]@,
                ));
            }
            i = i + 1;
        }
        proof {
            assert(ts@.take(ts@.len() as int) =~= ts@);
        }
        self.finish();
    }
}

/// A sink that stores every text chunk and error notice it receives.
pub struct Accumulate {
    /// The text chunks received, in order.
    pub texts: Vec<String>,
    /// The error notices received, in order.
    pub errors: Vec<String>,
}

impl Accumulate {
    /// An empty accumulator.
    pub fn new() -> (s: Accumulate)
        ensures
            s.texts@ == Seq::<String>::empty(),
            s.errors@ == Seq::<String>::empty(),
    {
        Accumulate { texts: Vec::new(), errors: Vec::new() }
    }

    /// Give up the accumulator and take what it gathered: the
    /// consume-and-return lifecycle idiom, as an adapter over the
    /// accumulate-in-place one.
    pub fn into_parts(self) -> (r: (Vec<String>, Vec<String>))
        ensures
            r.0 == self.texts,
            r.1 == self.errors,
    {
        (self.texts, self.errors)
    }
}

impl TendrilSink for Accumulate {
    open spec fn texts(&self) -> Seq<Seq<char>> {
        self.texts@.map_values(|s: String| s@)
    }

    open spec fn errors(&self) -> Seq<Seq<char>> {
        self.errors@.map_values(|s: String| s@)
    }

    fn process(&mut self, t: String) {
        let ghost prior = self.texts@;
        self.texts.push(t);
        proof {
            assert(self.texts@.map_values(|s: String| s@) =~= prior.map_values(
                |s: String| s@,
            ).push(t@));
        }
    }

    fn error(&mut self, desc: String) {
        let ghost prior = self.errors@;
        self.errors.push(desc);
        proof {
            assert(self.errors@.map_values(|s: String| s@) =~= prior.map_values(
                |s: String| s@,
            ).push(desc@));
        }
    }

    fn finish(&mut self) {
    }
}

} // verus!
