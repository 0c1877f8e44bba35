//! Prompt construction for the chat-tuned language model.
use vstd::prelude::*;

verus! {

/// The chat prompt: a system turn, the user's turn, and an open assistant turn.
pub open spec fn chat_prompt(system: Seq<char>, user: Seq<char>) -> Seq<char> {
    "<|im_start|>system\n"@ + system + "<|im_end|>\n<|im_start|>user\n"@ + user
        + "<|im_end|>\n<|im_start|>assistant\n"@
}

/// Builds the chat prompt for `user` under the system prompt `system`.
pub fn build_prompt(system: &str, user: &str) -> (p: String)
    ensures
        p@ == chat_prompt(system@, user@),
{
    let mut p = String::from_str("<|im_start|>system\n");
    p.append(system);
    p.append("<|im_end|>\n<|im_start|>user\n");
    p.append(user);
    p.append("<|im_end|>\n<|im_start|>assistant\n");
    p
}

} // verus!
