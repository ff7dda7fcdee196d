use vstd::prelude::*;

use crate::models::AndroidStringsEntry;

verus! {

/// Copies a record; the copy carries the same key and value.
pub fn clone_entry(e: &AndroidStringsEntry) -> (r: AndroidStringsEntry)
    ensures
        r == *e,
{
    let r = AndroidStringsEntry { key: e.key.clone(), value: e.value.clone() };
    r
}

/// A producer of records from one configuration's source, held in memory:
/// a lazy, finite, non-restartable sequence with an explicit release that
/// models freeing the underlying resource.
pub struct StreamProducer {
    entries: Vec<AndroidStringsEntry>,
    pos: usize,
    released: bool,
}

impl StreamProducer {
    /// The full record sequence behind this producer.
    pub closed spec fn entries_view(&self) -> Seq<AndroidStringsEntry> {
        self.entries@
    }

    /// How many records have been yielded so far.
    pub closed spec fn pos_view(&self) -> int {
        self.pos as int
    }

    /// Whether the underlying resource has been released.
    pub closed spec fn released_view(&self) -> bool {
        self.released
    }

    pub open spec fn wf(&self) -> bool {
        0 <= self.pos_view() <= self.entries_view().len()
    }

    /// The records yielded so far, in source order.
    pub open spec fn consumed(&self) -> Seq<AndroidStringsEntry> {
        self.entries_view().subrange(0, self.pos_view())
    }

    pub open spec fn exhausted(&self) -> bool {
        self.pos_view() == self.entries_view().len()
    }

    pub fn new(entries: Vec<AndroidStringsEntry>) -> (p: StreamProducer)
        ensures
            p.wf(),
            p.entries_view() == entries@,
            p.pos_view() == 0,
            !p.released_view(),
    {
        StreamProducer { entries, pos: 0, released: false }
    }

    /// Yields the next record in source order, or signals exhaustion;
    /// end-of-sequence is distinct from release.
    pub fn next(&mut self) -> (r: Option<AndroidStringsEntry>)
        requires
            old(self).wf(),
            !old(self).released_view(),
        ensures
            final(self).wf(),
            final(self).entries_view() == old(self).entries_view(),
            !final(self).released_view(),
            old(self).exhausted() ==> r is None && final(self).pos_view() == old(self).pos_view(),
            !old(self).exhausted() ==> r == Some(
                old(self).entries_view()[old(self).pos_view()],
            ) && final(self).pos_view() == old(self).pos_view() + 1,
    {
        if self.pos < self.entries.len() {
            let e = clone_entry(&self.entries[self.pos]);
            self.pos = self.pos + 1;
            Some(e)
        } else {
            None
        }
    }

    /// Releases the underlying resource; the producer must not be read again.
    pub fn clear(&mut self)
        ensures
            final(self).entries_view() == old(self).entries_view(),
            final(self).pos_view() == old(self).pos_view(),
            final(self).released_view(),
    {
        self.released = true;
    }
}

/// One simplified markup event of a configuration's source, as the scanner
/// reports it: only the shapes the record format cares about are told apart.
pub enum XmlEvent {
    /// A record element opened, carrying its key attribute.
    StringStart { key: String },
    /// Some other element opened.
    OtherStart,
    /// Literal text content.
    Text { value: String },
    /// End of the source.
    Eof,
    /// Any other event.
    Other,
}

/// What one scanning step decides.
pub enum ReadStep {
    /// Keep scanning; the payload is the key still waiting for its text.
    Continue(Option<String>),
    /// A full record was produced.
    Produced(AndroidStringsEntry),
    /// The source is over.
    End,
}

/// One decision step of the record scanner: a record element arms its key,
/// the next text content completes the record, anything else is skipped.
pub fn reader_step(pending: Option<String>, event: XmlEvent) -> (r: ReadStep)
    ensures
        r == reader_step_model(pending, event),
{
    match event {
        XmlEvent::Eof => ReadStep::End,
        XmlEvent::StringStart { key } => ReadStep::Continue(Some(key)),
        XmlEvent::Text { value } => match pending {
            Some(key) => ReadStep::Produced(AndroidStringsEntry { key, value }),
            None => ReadStep::Continue(None),
        },
        XmlEvent::OtherStart => ReadStep::Continue(pending),
        XmlEvent::Other => ReadStep::Continue(pending),
    }
}

/// The scanner's decision, as a function of the waiting key and the event.
pub open spec fn reader_step_model(pending: Option<String>, event: XmlEvent) -> ReadStep {
    match event {
        XmlEvent::Eof => ReadStep::End,
        XmlEvent::StringStart { key } => ReadStep::Continue(Some(key)),
        XmlEvent::Text { value } => match pending {
            Some(key) => ReadStep::Produced(AndroidStringsEntry { key, value }),
            None => ReadStep::Continue(None),
        },
        XmlEvent::OtherStart => ReadStep::Continue(pending),
        XmlEvent::Other => ReadStep::Continue(pending),
    }
}

/// The record that scanning finds from position `i` on with `pending`
/// waiting, and the position just past the text that completed it.
pub open spec fn scan_model(events: Seq<XmlEvent>, i: int, pending: Option<String>) -> Option<
    (AndroidStringsEntry, int),
>
    decreases events.len() - i,
{
    if i < 0 || i >= events.len() {
        None
    } else {
        match reader_step_model(pending, events[i]) {
            ReadStep::End => None,
            ReadStep::Produced(e) => Some((e, i + 1)),
            ReadStep::Continue(p) => scan_model(events, i + 1, p),
        }
    }
}

/// Copies one event.
fn clone_event(e: &XmlEvent) -> (r: XmlEvent)
    ensures
        r == *e,
{
    match e {
        XmlEvent::StringStart { key } => XmlEvent::StringStart { key: key.clone() },
        XmlEvent::OtherStart => XmlEvent::OtherStart,
        XmlEvent::Text { value } => XmlEvent::Text { value: value.clone() },
        XmlEvent::Eof => XmlEvent::Eof,
        XmlEvent::Other => XmlEvent::Other,
    }
}

/// Scans the event sequence from `start` for the next full record, as the
/// record reader does on one source: the returned position is where the next
/// scan should resume.
pub fn next_entry(events: &Vec<XmlEvent>, start: usize) -> (r: Option<(AndroidStringsEntry, usize)>)
    requires
        start <= events@.len(),
    ensures
        match r {
            Some(p) => Some((p.0, p.1 as int)) == scan_model(events@, start as int, None)
                && p.1 <= events@.len(),
            None => scan_model(events@, start as int, None) is None,
        },
{
    let mut i: usize = start;
    let mut pending: Option<String> = None;
    while i < events.len()
        invariant
            start <= i <= events@.len(),
            scan_model(events@, start as int, None) == scan_model(events@, i as int, pending),
        decreases events@.len() - i,
    {
        let step = reader_step(pending, clone_event(&events[i]));
        match step {
            ReadStep::End => {
                return None;
            },
            ReadStep::Produced(e) => {
                return Some((e, i + 1));
            },
            ReadStep::Continue(p) => {
                pending = p;
            },
        }
        i = i + 1;
    }
    None
}

} // verus!
