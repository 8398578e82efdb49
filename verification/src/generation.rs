//! Running one prompt: how its tokens are fed to the model, where generated
//! tokens go, and when generation ends.

use vstd::prelude::*;

verus! {

/// The context window, in tokens.
pub const CONTEXT_TOKENS: usize = 8192;

/// The largest batch that a single decode takes; the prompt is fed in windows
/// of this size.
pub const PROMPT_BATCH: usize = 2048;

/// Upper bound on generated tokens per pass.
pub const MAX_OUTPUT_TOKENS: usize = 2048;

/// The message when a prompt leaves no room for its reply.
pub const PROMPT_TOO_LONG: &'static str = "a prompt is too long for the context window";

/// What `String::from_utf8_lossy` makes of bytes: their text, ill-formed
/// sequences replaced. It depends on the bytes alone.
pub uninterp spec fn lossy_text(bytes: Seq<u8>) -> Seq<char>;

/// Calls `String::from_utf8_lossy`. Well-formed UTF-8 decodes to its text;
/// [`lossy_text`] names the result in every other case.
#[verifier::external_body]
fn from_utf8_lossy(bytes: &Vec<u8>) -> (text: String)
    ensures
        text@ == lossy_text(bytes@),
        vstd::utf8::valid_utf8(bytes@) ==> text@ == vstd::utf8::decode_utf8(bytes@),
{
    String::from_utf8_lossy(bytes.as_slice()).into_owned()
}

/// One prompt token in a batch: the token, its position in the context, and
/// whether the model's output after it is wanted.
#[derive(Debug)]
pub struct Feed<T> {
    pub token: T,
    pub position: i32,
    pub wanted: bool,
}

/// The batch of the prompt tokens from `from` up to `to`: each at its own
/// position, output wanted after the last token of the prompt only.
pub open spec fn batch_of<T>(tokens: Seq<T>, from: int, to: int) -> Seq<Feed<T>> {
    Seq::new(
        (to - from) as nat,
        |i: int|
            Feed {
                token: tokens[from + i],
                position: (from + i) as i32,
                wanted: from + i == tokens.len() - 1,
            },
    )
}

/// Where window `k` of a prompt ends.
pub open spec fn window_end(tokens: int, k: int) -> int {
    if (k + 1) * PROMPT_BATCH < tokens {
        (k + 1) * PROMPT_BATCH
    } else {
        tokens
    }
}

/// Lays a tokenized prompt out in batches. A prompt that leaves no room for a
/// full reply is refused.
pub fn prompt_batches<T: Copy>(tokens: &[T]) -> (r: Result<Vec<Vec<Feed<T>>>, String>)
    requires
        tokens@.len() > 0,
    ensures
        match r {
            Ok(batches) => {
                &&& tokens@.len() < CONTEXT_TOKENS - MAX_OUTPUT_TOKENS
                &&& (batches@.len() - 1) * PROMPT_BATCH < tokens@.len() <= batches@.len()
                    * PROMPT_BATCH
                &&& forall|k: int|
                    0 <= k < batches@.len() ==> (#[trigger] batches@[k])@ == batch_of(
                        tokens@,
                        k * PROMPT_BATCH,
                        window_end(tokens@.len() as int, k),
                    )
            },
            Err(message) => tokens@.len() >= CONTEXT_TOKENS - MAX_OUTPUT_TOKENS && message@
                == PROMPT_TOO_LONG@,
        },
        r is Ok <==> tokens@.len() + 2_048 < 8_192,
{
    if tokens.len() >= CONTEXT_TOKENS - MAX_OUTPUT_TOKENS {
        return Err(PROMPT_TOO_LONG.to_string());
    }
    let last = tokens.len() - 1;
    let mut batches: Vec<Vec<Feed<T>>> = Vec::new();
    let mut from: usize = 0;
    while from < tokens.len()
        invariant
            last == tokens@.len() - 1,
            tokens@.len() < CONTEXT_TOKENS - MAX_OUTPUT_TOKENS,
            from <= tokens@.len(),
            from < tokens@.len() ==> from == batches@.len() * PROMPT_BATCH,
            tokens@.len() <= from ==> (batches@.len() - 1) * PROMPT_BATCH < tokens@.len()
                <= batches@.len() * PROMPT_BATCH,
            forall|k: int|
                0 <= k < batches@.len() ==> (#[trigger] batches@[k])@ == batch_of(
                    tokens@,
                    k * PROMPT_BATCH,
                    window_end(tokens@.len() as int, k),
                ),
        decreases tokens@.len() - from,
    {
        let to = if tokens.len() - from > PROMPT_BATCH {
            from + PROMPT_BATCH
        } else {
            tokens.len()
        };
        let mut batch: Vec<Feed<T>> = Vec::new();
        let mut i: usize = from;
        while i < to
            invariant
                from <= i <= to <= tokens@.len(),
                last == tokens@.len() - 1,
                tokens@.len() < CONTEXT_TOKENS,
                batch@ == batch_of(tokens@, from as int, i as int),
            decreases to - i,
        {
            batch.push(Feed { token: tokens[i], position: i as i32, wanted: i == last });
            i += 1;
            assert(batch@ == batch_of(tokens@, from as int, i as int));
        }
        batches.push(batch);
        from = to;
    }
    Ok(batches)
}

/// The windows of a prompt follow each other without a gap or an overlap, none
/// longer than a batch, and end with the prompt. In each, every token stands at
/// its own position in the context, and output is wanted after the last token of
/// the prompt alone.
pub proof fn law_every_token_fed_once<T>(tokens: Seq<T>, k: int, i: int)
    requires
        0 < tokens.len() < CONTEXT_TOKENS,
        0 <= k,
        k * PROMPT_BATCH < tokens.len(),
        0 <= i < window_end(tokens.len() as int, k) - k * PROMPT_BATCH,
    ensures
        window_end(tokens.len() as int, k) - k * PROMPT_BATCH <= PROMPT_BATCH,
        window_end(tokens.len() as int, k) <= tokens.len(),
        window_end(tokens.len() as int, k) < tokens.len() ==> window_end(tokens.len() as int, k)
            == (k + 1) * PROMPT_BATCH,
        batch_of(tokens, k * PROMPT_BATCH, window_end(tokens.len() as int, k)).len() == window_end(
            tokens.len() as int,
            k,
        ) - k * PROMPT_BATCH,
        ({
            let feed = batch_of(
                tokens,
                k * PROMPT_BATCH,
                window_end(tokens.len() as int, k),
            )[i];
            let at = k * PROMPT_BATCH + i;
            &&& feed.token == tokens[at]
            &&& feed.position == at
            &&& feed.wanted <==> at == tokens.len() - 1
        }),
{
}

/// The windows of a prompt hold 2048 tokens each, but for the last.
pub proof fn law_windows_are_full(tokens: int, k: int)
    requires
        0 <= k,
        k * 2_048 < tokens,
    ensures
        window_end(tokens, k) == tokens || window_end(tokens, k) - k * 2_048 == 2_048,
        window_end(tokens, k) == tokens <==> tokens <= (k + 1) * 2_048,
{
}

/// The reply under way.
#[derive(Debug)]
pub struct Generation {
    output: Vec<u8>,
    position: i32,
    generated: usize,
    ended: bool,
}

/// A reply under way, as mathematics.
pub struct GenerationView {
    /// How many tokens the prompt took.
    pub prompt: int,
    /// How many tokens were generated.
    pub generated: int,
    /// The bytes generated so far.
    pub output: Seq<u8>,
    /// Whether the model ended its reply.
    pub ended: bool,
}

impl GenerationView {
    /// Whether another token is to be sampled.
    pub open spec fn wants_token(self) -> bool {
        !self.ended && self.generated < MAX_OUTPUT_TOKENS
    }

    /// Where the next token goes in the context.
    pub open spec fn position(self) -> int {
        self.prompt + self.generated
    }
}

impl View for Generation {
    type V = GenerationView;

    closed spec fn view(&self) -> GenerationView {
        GenerationView {
            prompt: self.position - self.generated,
            generated: self.generated as int,
            output: self.output@,
            ended: self.ended,
        }
    }
}

impl Generation {
    #[verifier::type_invariant]
    spec fn well_formed(self) -> bool {
        &&& self.generated <= MAX_OUTPUT_TOKENS
        &&& self.generated <= self.position
        &&& self.position - self.generated < CONTEXT_TOKENS - MAX_OUTPUT_TOKENS
    }

    /// A reply to a prompt of that many tokens, with nothing generated yet.
    pub fn start(prompt: usize) -> (g: Generation)
        requires
            prompt < CONTEXT_TOKENS - MAX_OUTPUT_TOKENS,
        ensures
            g@ == (GenerationView {
                prompt: prompt as int,
                generated: 0,
                output: Seq::empty(),
                ended: false,
            }),
    {
        Generation { output: Vec::new(), position: prompt as i32, generated: 0, ended: false }
    }

    /// Whether another token is to be sampled.
    pub fn wants_token(&self) -> (r: bool)
        ensures
            r == self@.wants_token(),
    {
        !self.ended && self.generated < MAX_OUTPUT_TOKENS
    }

    /// The model ended its reply.
    pub fn end(self) -> (g: Generation)
        ensures
            g@ == (GenerationView { ended: true, ..self@ }),
    {
        proof {
            use_type_invariant(&self);
        }
        Generation {
            output: self.output,
            position: self.position,
            generated: self.generated,
            ended: true,
        }
    }

    /// Takes the bytes of a sampled token, and says at which position of the
    /// context the token goes. That position lies within the context window.
    pub fn accept(self, piece: &[u8]) -> (r: (Generation, i32))
        requires
            self@.wants_token(),
        ensures
            r.0@ == (GenerationView {
                generated: self@.generated + 1,
                output: self@.output + piece@,
                ..self@
            }),
            r.1 == self@.position(),
            0 <= r.1 < CONTEXT_TOKENS,
    {
        proof {
            use_type_invariant(&self);
        }
        let mut output = self.output;
        let mut i: usize = 0;
        let ghost before = output@;
        while i < piece.len()
            invariant
                i <= piece@.len(),
                output@ == before + piece@.take(i as int),
            decreases piece@.len() - i,
        {
            output.push(piece[i]);
            assert(piece@.take(i + 1) == piece@.take(i as int).push(piece@[i as int]));
            i += 1;
        }
        assert(piece@.take(i as int) == piece@);
        let position = self.position;
        (
            Generation {
                output,
                position: position + 1,
                generated: self.generated + 1,
                ended: self.ended,
            },
            position,
        )
    }

    /// The text of the reply.
    pub fn into_text(self) -> (text: String)
        ensures
            text@ == lossy_text(self@.output),
            vstd::utf8::valid_utf8(self@.output) ==> text@ == vstd::utf8::decode_utf8(
                self@.output,
            ),
    {
        from_utf8_lossy(&self.output)
    }
}

/// A reply goes on until the model ends it, for 2048 tokens at the most. The
/// tokens follow the prompt in the context one by one, and a prompt that leaves
/// room for a full reply keeps them all within the window of 8192.
pub proof fn law_reply_fits_the_window(g: GenerationView)
    requires
        0 <= g.prompt,
        g.prompt + 2_048 < 8_192,
        0 <= g.generated,
    ensures
        g.wants_token() <==> !g.ended && g.generated < 2_048,
        g.generated == 0 ==> g.position() == g.prompt,
        (GenerationView { generated: g.generated + 1, ..g }).position() == g.position() + 1,
        g.wants_token() ==> 0 <= g.position() < 8_192,
{
}

} // verus!
