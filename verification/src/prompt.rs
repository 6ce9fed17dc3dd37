//! The request sent to the Anthropic messages API and what is made of its reply.
use vstd::prelude::*;

verus! {

/// The character of the decimal digit `d`.
pub open spec fn digit_char(d: int) -> char {
    (d + 48) as char
}

/// The decimal numeral of `n`.
pub open spec fn decimal(n: nat) -> Seq<char>
    decreases n,
{
    if n < 10 {
        seq![digit_char(n as int)]
    } else {
        decimal(n / 10).push(digit_char((n % 10) as int))
    }
}

/// The last `w` decimal digits of `n`, zeros in front.
pub open spec fn fixed_digits(n: nat, w: nat) -> Seq<char>
    decreases w,
{
    if w == 0 {
        seq![]
    } else {
        fixed_digits(n / 10, (w - 1) as nat).push(digit_char((n % 10) as int))
    }
}

fn digit_str(d: u64) -> (r: &'static str)
    requires
        d < 10,
    ensures
        r@ == seq![digit_char(d as int)],
{
    let s = if d == 0 {
        "0"
    } else if d == 1 {
        "1"
    } else if d == 2 {
        "2"
    } else if d == 3 {
        "3"
    } else if d == 4 {
        "4"
    } else if d == 5 {
        "5"
    } else if d == 6 {
        "6"
    } else if d == 7 {
        "7"
    } else if d == 8 {
        "8"
    } else {
        "9"
    };
    proof {
        reveal_strlit("0");
        reveal_strlit("1");
        reveal_strlit("2");
        reveal_strlit("3");
        reveal_strlit("4");
        reveal_strlit("5");
        reveal_strlit("6");
        reveal_strlit("7");
        reveal_strlit("8");
        reveal_strlit("9");
    }
    s
}

/// Appends the decimal numeral of `n` to `out`.
fn append_decimal(out: &mut String, n: u64)
    ensures
        final(out)@ == old(out)@ + decimal(n as nat),
    decreases n,
{
    if n >= 10 {
        append_decimal(out, n / 10);
    }
    out.append(digit_str(n % 10));
    proof {
        assert(final(out)@ =~= old(out)@ + decimal(n as nat));
    }
}

/// Appends the last `w` decimal digits of `n` to `out`, zeros in front.
fn append_fixed_digits(out: &mut String, n: u64, w: u64)
    ensures
        final(out)@ == old(out)@ + fixed_digits(n as nat, w as nat),
    decreases w,
{
    if w > 0 {
        append_fixed_digits(out, n / 10, w - 1);
        out.append(digit_str(n % 10));
    }
    proof {
        assert(final(out)@ =~= old(out)@ + fixed_digits(n as nat, w as nat));
    }
}


/// The most tokens a reply may hold.
pub const MAX_TOKENS: u32 = 4096;

/// One message of a request: who says it, and what.
pub struct PromptMessage {
    pub role: String,
    pub content: String,
}

/// The body of a request to the messages API.
pub struct PromptRequest {
    pub model: String,
    pub max_tokens: u32,
    pub messages: Vec<PromptMessage>,
}

impl PromptRequest {
    /// The request that sends `prompt` as a single user message to `model`.
    pub fn new(model: &str, prompt: &str) -> (r: PromptRequest)
        ensures
            r.model@ == model@,
            r.max_tokens == MAX_TOKENS,
            r.messages.len() == 1,
            r.messages@[0].role@ == "user"@,
            r.messages@[0].content@ == prompt@,
    {
        let mut messages: Vec<PromptMessage> = Vec::new();
        messages.push(PromptMessage { role: String::from_str("user"), content: String::from_str(prompt) });
        PromptRequest { model: String::from_str(model), max_tokens: MAX_TOKENS, messages }
    }
}

/// One block of content of a reply.
pub struct ContentBlock {
    pub text: String,
}

/// The token counts of a reply.
pub struct ApiUsage {
    pub input_tokens: u32,
    pub output_tokens: u32,
}

/// A reply of the messages API.
pub struct ApiResponse {
    pub content: Vec<ContentBlock>,
    pub usage: ApiUsage,
}

/// Why a prompt got no answer.
#[derive(Debug)]
pub enum PromptError {
    /// The API answered with a status outside `200..300`, and this body.
    Api { status: u16, body: String },
    /// The reply held no content block.
    EmptyResponse,
}

/// The body of a reply, when its HTTP status is a success (`200..300`).
pub fn check_status(status: u16, body: String) -> (r: Result<String, PromptError>)
    ensures
        r is Ok <==> 200 <= status < 300,
        r matches Ok(b) ==> b@ == body@,
        r matches Err(e) ==> e matches PromptError::Api { status: s, body: b } && s == status && b@ == body@,
{
    if 200 <= status && status < 300 {
        Ok(body)
    } else {
        Err(PromptError::Api { status, body })
    }
}

/// The token counts of an answered prompt.
pub struct Usage {
    input_tokens: u32,
    output_tokens: u32,
}

/// The price of the tokens in micro-dollars, rounded to the nearest: $0.80
/// per million input tokens and $4.00 per million output tokens.
pub open spec fn cost_micro_dollars(input: nat, output: nat) -> nat {
    ((8 * input + 40 * output + 5) / 10) as nat
}

/// The price never falls when either token count grows.
pub proof fn lemma_cost_monotone(in1: nat, out1: nat, in2: nat, out2: nat)
    requires
        in1 <= in2,
        out1 <= out2,
    ensures
        cost_micro_dollars(in1, out1) <= cost_micro_dollars(in2, out2),
{
    let x: nat = 8 * in1 + 40 * out1 + 5;
    let y: nat = 8 * in2 + 40 * out2 + 5;
    assert(0 <= x <= y);
    assert(x / 10 <= y / 10) by (nonlinear_arith)
        requires
            0 <= x <= y,
    ;
}

/// The price of at most `u32::MAX` tokens of each kind stays within
/// `4294967295 * 48 / 10` micro-dollars, rounded up.
pub proof fn lemma_cost_bound(input: nat, output: nat)
    requires
        input <= u32::MAX,
        output <= u32::MAX,
    ensures
        cost_micro_dollars(input, output) <= (48 * 4294967295nat + 5) / 10,
{
    lemma_cost_monotone(input, output, u32::MAX as nat, u32::MAX as nat);
}

/// The usage line: `<in> in / <out> out / $<cost>`, the cost in dollars
/// with six decimals.
pub open spec fn usage_line(input: nat, output: nat) -> Seq<char> {
    let c = cost_micro_dollars(input, output);
    decimal(input) + " in / "@ + decimal(output) + " out / $"@ + decimal(c / 1000000) + "."@
        + fixed_digits(c % 1000000, 6)
}

impl Usage {
    pub closed spec fn input(&self) -> nat {
        self.input_tokens as nat
    }

    pub closed spec fn output(&self) -> nat {
        self.output_tokens as nat
    }

    /// The usage line: `<in> in / <out> out / $<cost>`.
    pub fn to_string(&self) -> (r: String)
        ensures
            r@ == usage_line(self.input(), self.output()),
    {
        let micro: u64 = (8 * (self.input_tokens as u64) + 40 * (self.output_tokens as u64) + 5) / 10;
        let mut out = String::new();
        append_decimal(&mut out, self.input_tokens as u64);
        out.append(" in / ");
        append_decimal(&mut out, self.output_tokens as u64);
        out.append(" out / $");
        append_decimal(&mut out, micro / 1000000);
        out.append(".");
        append_fixed_digits(&mut out, micro % 1000000, 6);
        out
    }
}

/// The answer to a prompt: its text and what it cost.
pub struct PromptResponse {
    text: String,
    usage: Usage,
}

impl PromptResponse {
    pub closed spec fn text_view(&self) -> Seq<char> {
        self.text@
    }

    pub closed spec fn usage_view(&self) -> (nat, nat) {
        (self.usage.input(), self.usage.output())
    }

    /// The answer in the reply `response`: the text of its first content
    /// block, with its token counts.
    pub fn from_api(response: ApiResponse) -> (r: Result<PromptResponse, PromptError>)
        ensures
            r is Ok <==> response.content.len() > 0,
            r matches Ok(p) ==> {
                &&& p.text_view() == response.content@[0].text@
                &&& p.usage_view() == (response.usage.input_tokens as nat, response.usage.output_tokens as nat)
            },
            r matches Err(e) ==> e is EmptyResponse,
    {
        if response.content.len() == 0 {
            return Err(PromptError::EmptyResponse);
        }
        let text = response.content[0].text.clone();
        Ok(PromptResponse {
            text,
            usage: Usage {
                input_tokens: response.usage.input_tokens,
                output_tokens: response.usage.output_tokens,
            },
        })
    }

    /// The text of the answer.
    pub fn text(&self) -> (r: &str)
        ensures
            r@ == self.text_view(),
    {
        self.text.as_str()
    }

    /// The usage line of the answer: `<in> in / <out> out / $<cost>`.
    pub fn usage(&self) -> (r: String)
        ensures
            r@ == usage_line(self.usage_view().0, self.usage_view().1),
    {
        self.usage.to_string()
    }

    /// The answer as printed: its text, an empty line, and its usage line.
    pub fn to_string(&self) -> (r: String)
        ensures
            r@ == self.text_view() + "\n\n"@ + usage_line(self.usage_view().0, self.usage_view().1),
    {
        let mut out = String::from_str(self.text.as_str());
        out.append("\n\n");
        let u = self.usage.to_string();
        out.append(u.as_str());
        out
    }
}

} // verus!
