//! Anchors and the context that they store.

use vstd::prelude::*;
use vstd::string::StrSliceExecFns;
use vstd::string::StringExecFns;
use std::path::PathBuf;
use crate::errors::ErrorKind;

verus! {

/// `serde_yaml::Value`, an anchor's metadata, which the library carries
/// without looking inside.
#[verifier::external_type_specification]
#[verifier::external_body]
pub struct ExYamlValue(serde_yaml::Value);

/// `serde_yaml::Value::clone`: the copy is the same value.
pub assume_specification[ <serde_yaml::Value as Clone>::clone ](value: &serde_yaml::Value) -> (copy:
    serde_yaml::Value)
    ensures
        copy == *value,
;

/// What a context holds, as mathematics.
pub struct ContextView {
    /// The text before the topic.
    pub before: Seq<char>,
    /// The index of the topic's first character in the text it was taken from.
    pub offset: nat,
    /// The anchored text.
    pub topic: Seq<char>,
    /// The text after the topic.
    pub after: Seq<char>,
    /// The width that was asked for on each side of the topic.
    pub width: nat,
}

impl ContextView {
    /// The stored text as one: what lies before the topic, the topic, and
    /// what lies after it.
    pub open spec fn full_text(self) -> Seq<char> {
        self.before + self.topic + self.after
    }

    /// What holds of every context: the topic is not empty, neither side is
    /// wider than the width, the text before the topic is no longer than
    /// the offset, and the index of every stored character fits 64 bits.
    pub open spec fn wf(self) -> bool {
        &&& self.topic.len() > 0
        &&& self.before.len() <= self.width
        &&& self.after.len() <= self.width
        &&& self.before.len() <= self.offset
        &&& self.offset + self.topic.len() + self.after.len() <= u64::MAX
        &&& self.width <= u64::MAX
    }
}

/// `text` holds a topic of `width` characters at `offset`.
pub open spec fn holds_topic(text: Seq<char>, offset: nat, width: nat) -> bool {
    width > 0 && offset + width <= text.len()
}

/// The context of the topic of `width` characters at `offset` in `text`,
/// with up to `context_width` characters on each side.
pub open spec fn context_of(text: Seq<char>, offset: nat, width: nat, context_width: nat) -> ContextView {
    let before_start: int = if context_width <= offset {
        offset - context_width
    } else {
        0
    };
    let after_start: int = (offset + width) as int;
    let after_end: int = if after_start + context_width <= text.len() {
        after_start + context_width
    } else {
        text.len() as int
    };
    ContextView {
        before: text.subrange(before_start, offset as int),
        offset,
        topic: text.subrange(offset as int, after_start),
        after: text.subrange(after_start, after_end),
        width: context_width,
    }
}

/// A topic with the text around it.
#[derive(Debug)]
pub struct Context {
    before: String,
    offset: u64,
    topic: String,
    after: String,
    width: u64,
}

impl View for Context {
    type V = ContextView;

    closed spec fn view(&self) -> ContextView {
        ContextView {
            before: self.before@,
            offset: self.offset as nat,
            topic: self.topic@,
            after: self.after@,
            width: self.width as nat,
        }
    }
}

impl Context {
    #[verifier::type_invariant]
    spec fn well_formed(self) -> bool {
        self@.wf()
    }

    /// Takes the context of a topic from `text`.
    ///
    /// The topic is the `width` characters of `text` from `offset` on. It
    /// must not be empty and must lie within `text`.
    pub fn new(text: &str, offset: u64, width: u64, context_width: u64) -> (res: Result<
        Context,
        ErrorKind,
    >)
        ensures
            holds_topic(text@, offset as nat, width as nat) ==> (res matches Ok(c) && c@
                == context_of(text@, offset as nat, width as nat, context_width as nat)),
            !holds_topic(text@, offset as nat, width as nat) ==> res == Err::<Context, ErrorKind>(
                ErrorKind::InvalidTopic,
            ),
            res matches Ok(c) ==> c@.wf(),
    {
        let len = text.unicode_len();
        if width == 0 || offset > len as u64 || width > len as u64 - offset {
            return Err(ErrorKind::InvalidTopic);
        }
        let topic_start = offset as usize;
        let topic_end = topic_start + width as usize;
        let topic = text.substring_char(topic_start, topic_end).to_owned();

        // read before
        let before_start = if context_width <= offset {
            (offset - context_width) as usize
        } else {
            0
        };
        let before = text.substring_char(before_start, topic_start).to_owned();

        // read after
        let after_end = if context_width <= (len - topic_end) as u64 {
            topic_end + context_width as usize
        } else {
            len
        };
        let after = text.substring_char(topic_end, after_end).to_owned();

        Ok(Context { before, offset, topic, after, width: context_width })
    }

    /// Puts a context together from its parts, where they are those of a
    /// context.
    pub fn from_parts(before: String, offset: u64, topic: String, after: String, width: u64) -> (res:
        Option<Context>)
        ensures
            res matches Some(c) ==> c@ == (ContextView {
                before: before@,
                offset: offset as nat,
                topic: topic@,
                after: after@,
                width: width as nat,
            }),
            res is Some <==> (ContextView {
                before: before@,
                offset: offset as nat,
                topic: topic@,
                after: after@,
                width: width as nat,
            }).wf(),
    {
        let before_len = before.as_str().unicode_len();
        let topic_len = topic.as_str().unicode_len();
        let after_len = after.as_str().unicode_len();
        if topic_len > 0 && before_len as u64 <= width && after_len as u64 <= width && before_len as u64
            <= offset && topic_len as u64 <= u64::MAX - offset && after_len as u64 <= u64::MAX - offset
            - topic_len as u64 {
            Some(Context { before, offset, topic, after, width })
        } else {
            None
        }
    }

    /// The text before the topic.
    pub fn before(&self) -> (before: &String)
        ensures
            before@ == self@.before,
            self@.wf(),
    {
        proof {
            use_type_invariant(self);
        }
        &self.before
    }

    /// The index of the topic's first character.
    pub fn offset(&self) -> (offset: u64)
        ensures
            offset == self@.offset,
            self@.wf(),
    {
        proof {
            use_type_invariant(self);
        }
        self.offset
    }

    /// The anchored text.
    pub fn topic(&self) -> (topic: &String)
        ensures
            topic@ == self@.topic,
            self@.wf(),
    {
        proof {
            use_type_invariant(self);
        }
        &self.topic
    }

    /// The text after the topic.
    pub fn after(&self) -> (after: &String)
        ensures
            after@ == self@.after,
            self@.wf(),
    {
        proof {
            use_type_invariant(self);
        }
        &self.after
    }

    /// The width that was asked for on each side of the topic.
    pub fn width(&self) -> (width: u64)
        ensures
            width == self@.width,
            self@.wf(),
    {
        proof {
            use_type_invariant(self);
        }
        self.width
    }

    /// The stored text as one string.
    pub fn full_text(&self) -> (text: String)
        ensures
            text@ == self@.full_text(),
    {
        let mut text = self.before.clone();
        text.append(self.topic.as_str());
        text.append(self.after.as_str());
        text
    }
}

/// What an anchor holds, as mathematics.
pub struct AnchorView {
    /// The file that the anchor speaks of.
    pub file_path: PathBuf,
    /// The label of the file's encoding.
    pub encoding: Seq<char>,
    /// The topic and the text around it.
    pub context: ContextView,
    /// What the anchor attaches to the topic.
    pub metadata: serde_yaml::Value,
}

/// A topic in a file, with the metadata attached to it.
#[derive(Debug)]
pub struct Anchor {
    file_path: PathBuf,
    encoding: String,
    context: Context,
    metadata: serde_yaml::Value,
}

impl View for Anchor {
    type V = AnchorView;

    closed spec fn view(&self) -> AnchorView {
        AnchorView {
            file_path: self.file_path,
            encoding: self.encoding@,
            context: self.context@,
            metadata: self.metadata,
        }
    }
}

/// `Path::is_absolute`, which decides by the rules of the platform.
#[verifier::external_body]
fn path_is_absolute(path: &PathBuf) -> bool {
    path.is_absolute()
}

impl Anchor {
    /// Makes an anchor for a file, given by an absolute path.
    ///
    /// Whether the path is absolute is for the platform to say, so all that
    /// holds of every outcome is stated here; `with_path` states the rest.
    pub fn new(file_path: &PathBuf, context: Context, metadata: serde_yaml::Value, encoding: String) -> (res:
        Result<Anchor, ErrorKind>)
        ensures
            res matches Ok(anchor) ==> anchor@ == (AnchorView {
                file_path: *file_path,
                encoding: encoding@,
                context: context@,
                metadata,
            }),
            res matches Err(e) ==> e == ErrorKind::InvalidPath,
    {
        let absolute = path_is_absolute(file_path);
        Anchor::with_path(file_path, absolute, context, metadata, encoding)
    }

    /// Makes an anchor for a file whose path is known to be absolute or
    /// not: an anchor with the given parts where it is, `InvalidPath` where
    /// it is not.
    pub fn with_path(
        file_path: &PathBuf,
        absolute: bool,
        context: Context,
        metadata: serde_yaml::Value,
        encoding: String,
    ) -> (res: Result<Anchor, ErrorKind>)
        ensures
            absolute ==> (res matches Ok(anchor) && anchor@ == (AnchorView {
                file_path: *file_path,
                encoding: encoding@,
                context: context@,
                metadata,
            })),
            !absolute ==> res == Err::<Anchor, ErrorKind>(ErrorKind::InvalidPath),
    {
        if !absolute {
            return Err(ErrorKind::InvalidPath);
        }
        Ok(Anchor { file_path: file_path.clone(), encoding, context, metadata })
    }

    /// The same anchor around another context.
    pub fn with_context(&self, context: Context) -> (anchor: Anchor)
        ensures
            anchor@ == (AnchorView { context: context@, ..self@ }),
    {
        Anchor {
            file_path: self.file_path.clone(),
            encoding: self.encoding.clone(),
            context,
            metadata: self.metadata.clone(),
        }
    }

    /// The file that the anchor speaks of.
    pub fn file_path(&self) -> (file_path: &PathBuf)
        ensures
            *file_path == self@.file_path,
    {
        &self.file_path
    }

    /// The label of the file's encoding.
    pub fn encoding(&self) -> (encoding: &String)
        ensures
            encoding@ == self@.encoding,
    {
        &self.encoding
    }

    /// The topic and the text around it.
    pub fn context(&self) -> (context: &Context)
        ensures
            context@ == self@.context,
            context@.wf(),
    {
        proof {
            use_type_invariant(&self.context);
        }
        &self.context
    }

    /// What the anchor attaches to the topic.
    pub fn metadata(&self) -> (metadata: &serde_yaml::Value)
        ensures
            *metadata == self@.metadata,
    {
        &self.metadata
    }
}

} // verus!
