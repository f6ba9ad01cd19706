//! Assembly of the prompt context: the fixed editing instructions, the
//! available table templates, and the retrieved file chunks, concatenated
//! into the strings handed to the language model.

use vstd::prelude::*;

verus! {

use crate::search::{ScoredChunk, ScoredModel, scored_models};
use vstd::string::StringExecFns;

/// Mathematical model of a context builder: the retrieved chunks and the
/// template texts it will lay out.
#[verifier::ext_equal]
pub struct ContextModel {
    pub chunks: Seq<ScoredModel>,
    pub templates: Seq<Seq<char>>,
}

/// Builds prompt context out of retrieved chunks and template texts.
pub struct ContextBuilder {
    context_chunks: Vec<ScoredChunk>,
    templates: Vec<String>,
}

impl View for ContextBuilder {
    type V = ContextModel;

    closed spec fn view(&self) -> ContextModel {
        ContextModel {
            chunks: scored_models(self.context_chunks@),
            templates: self.templates@.map_values(|t: String| t@),
        }
    }
}

/// The template texts, each followed by a blank line, in order.
pub open spec fn templates_block(ts: Seq<Seq<char>>) -> Seq<char>
    decreases ts.len(),
{
    if ts.len() == 0 {
        Seq::empty()
    } else {
        templates_block(ts.drop_last()) + ts.last() + "\n\n"@
    }
}

/// One retrieved chunk laid out between explicit file markers.
pub open spec fn chunk_block(c: ScoredModel) -> Seq<char> {
    "--- BEGIN FILE: "@ + c.relative_path + " ---\n"@ + c.content + "\n--- END FILE: "@
        + c.relative_path + " ---\n\n"@
}

/// The retrieved chunks laid out one after another, in rank order.
pub open spec fn chunks_block(cs: Seq<ScoredModel>) -> Seq<char>
    decreases cs.len(),
{
    if cs.len() == 0 {
        Seq::empty()
    } else {
        chunks_block(cs.drop_last()) + chunk_block(cs.last())
    }
}

/// The preface of the templates section.
pub open spec fn templates_title() -> Seq<char> {
    "Available Table Templates (Schemas):\n"@
}

/// The closing instruction of the templates section.
pub open spec fn templates_tail() -> Seq<char> {
    "If the user asks to generate an item/statblock using a specific template, output valid YAML inside a ```codex block that adheres to the schema. Set the 'template' field to the template ID.\n\n"@
}

/// The templates section: title, templates and closing instruction, or
/// nothing when there are no templates.
pub open spec fn templates_section(ts: Seq<Seq<char>>) -> Seq<char> {
    if ts.len() == 0 {
        Seq::empty()
    } else {
        templates_title() + templates_block(ts) + templates_tail()
    }
}

/// The fixed editing instructions that open every system context.
pub open spec fn system_header() -> Seq<char> {
    r#"You are an AI assistant for CodexLotus, a TTRPG rulebook editor.

## File Editing Capability
When the user asks you to edit, update, modify, or change a file, you MUST output the complete updated file content using this exact format:

<file_edit path="FILENAME.md">
... complete updated file content here ...
</file_edit>

IMPORTANT RULES FOR FILE EDITS:
- The path should be the relative path shown in the context (e.g., "chapter-3.md", "rules/combat.md")
- Include the COMPLETE file content, not just the changed parts
- Do NOT wrap the content in markdown code fences inside the file_edit tags
- After the file_edit block, briefly explain what you changed

Example:
User: "Add a section about flanking to combat.md"
Assistant: <file_edit path="combat.md">
# Combat Rules

## Basic Combat
[existing content...]

## Flanking
When two allies are on opposite sides of an enemy, they gain +2 to attack rolls against that enemy.
</file_edit>

I've added a new "Flanking" section that grants +2 to attack rolls when allies are positioned on opposite sides of an enemy.

---

"#@
}

/// The system context: editing instructions, templates section, and the
/// retrieved files section when chunks are present.
pub open spec fn system_context_spec(v: ContextModel) -> Seq<char> {
    system_header() + templates_section(v.templates) + if v.chunks.len() == 0 {
        Seq::<char>::empty()
    } else {
        "Project files for reference:\n\n"@ + chunks_block(v.chunks)
    }
}

/// The single-turn prompt: templates section, retrieved context section, and
/// the user's prompt.
pub open spec fn prompt_spec(v: ContextModel, user_prompt: Seq<char>) -> Seq<char> {
    templates_section(v.templates) + (if v.chunks.len() == 0 {
        Seq::<char>::empty()
    } else {
        "Use the following project context to answer the user's question. References to 'file' or 'chapter' usually refer to these snippets:\n\n"@
            + chunks_block(v.chunks) + "---\n\n"@
    }) + user_prompt
}

impl ContextBuilder {
    /// A builder with no chunks and no templates.
    pub fn new() -> (r: ContextBuilder)
        ensures
            r@ == (ContextModel { chunks: Seq::<ScoredModel>::empty(), templates: Seq::<
                Seq<char>,
            >::empty() }),
    {
        let b = ContextBuilder { context_chunks: Vec::new(), templates: Vec::new() };
        proof {
            assert(b@ =~~= ContextModel {
                chunks: Seq::<ScoredModel>::empty(),
                templates: Seq::<Seq<char>>::empty(),
            });
        }
        b
    }

    /// The same builder carrying `chunks` as its retrieved context.
    pub fn with_context(self, chunks: Vec<ScoredChunk>) -> (r: ContextBuilder)
        ensures
            r@ == (ContextModel { chunks: scored_models(chunks@), templates: self@.templates }),
    {
        let b = ContextBuilder { context_chunks: chunks, templates: self.templates };
        proof {
            assert(b@ =~~= ContextModel {
                chunks: scored_models(b.context_chunks@),
                templates: self@.templates,
            });
        }
        b
    }

    /// The same builder carrying `templates`.
    pub fn with_templates(self, templates: Vec<String>) -> (r: ContextBuilder)
        ensures
            r@ == (ContextModel {
                chunks: self@.chunks,
                templates: templates@.map_values(|t: String| t@),
            }),
    {
        let b = ContextBuilder { context_chunks: self.context_chunks, templates };
        proof {
            assert(b@ =~~= ContextModel {
                chunks: self@.chunks,
                templates: b.templates@.map_values(|t: String| t@),
            });
        }
        b
    }

    /// The system context string for multi-turn conversations (see
    /// `system_context_spec`).
    pub fn build_system_context(&self) -> (r: String)
        ensures
            r@ == system_context_spec(self@),
    {
        let mut out = String::from_str(
            r#"You are an AI assistant for CodexLotus, a TTRPG rulebook editor.

## File Editing Capability
When the user asks you to edit, update, modify, or change a file, you MUST output the complete updated file content using this exact format:

<file_edit path="FILENAME.md">
... complete updated file content here ...
</file_edit>

IMPORTANT RULES FOR FILE EDITS:
- The path should be the relative path shown in the context (e.g., "chapter-3.md", "rules/combat.md")
- Include the COMPLETE file content, not just the changed parts
- Do NOT wrap the content in markdown code fences inside the file_edit tags
- After the file_edit block, briefly explain what you changed

Example:
User: "Add a section about flanking to combat.md"
Assistant: <file_edit path="combat.md">
# Combat Rules

## Basic Combat
[existing content...]

## Flanking
When two allies are on opposite sides of an enemy, they gain +2 to attack rolls against that enemy.
</file_edit>

I've added a new "Flanking" section that grants +2 to attack rolls when allies are positioned on opposite sides of an enemy.

---

"#,
        );
        self.append_templates_section(&mut out);
        proof {
            assert(out@ =~= system_header() + templates_section(self@.templates));
        }
        if self.context_chunks.len() > 0 {
            out.append("Project files for reference:\n\n");
            self.append_chunk_blocks(&mut out);
        }
        proof {
            assert(out@ =~= system_context_spec(self@));
        }
        out
    }

    /// The single-turn prompt string (see `prompt_spec`).
    pub fn build_prompt(&self, user_prompt: &str) -> (r: String)
        ensures
            r@ == prompt_spec(self@, user_prompt@),
    {
        let mut out = String::new();
        self.append_templates_section(&mut out);
        proof {
            assert(out@ =~= templates_section(self@.templates));
        }
        if self.context_chunks.len() > 0 {
            out.append(
                "Use the following project context to answer the user's question. References to 'file' or 'chapter' usually refer to these snippets:\n\n",
            );
            self.append_chunk_blocks(&mut out);
            out.append("---\n\n");
        }
        out.append(user_prompt);
        proof {
            assert(out@ =~= prompt_spec(self@, user_prompt@));
        }
        out
    }

    /// Append the templates section to `out`.
    fn append_templates_section(&self, out: &mut String)
        ensures
            final(out)@ == old(out)@ + templates_section(self@.templates),
    {
        if self.templates.len() == 0 {
            proof {
                assert(old(out)@ + templates_section(self@.templates) =~= old(out)@);
            }
            return ;
        }
        out.append("Available Table Templates (Schemas):\n");
        let n = self.templates.len();
        let mut i: usize = 0;
        while i < n
            invariant
                n == self.templates@.len(),
                i <= n,
                out@ == old(out)@ + templates_title() + templates_block(
                    self@.templates.take(i as int),
                ),
            decreases n - i,
        {
            let ghost before = out@;
            out.append(self.templates[i].as_str());
            out.append("\n\n");
            proof {
                let ts = self@.templates;
                assert(ts.take(i + 1).drop_last() =~= ts.take(i as int));
                assert(ts.take(i + 1).last() == ts[i as int]);
                assert(out@ =~= old(out)@ + templates_title() + templates_block(ts.take(i + 1)));
            }
            i += 1;
        }
        out.append(
            "If the user asks to generate an item/statblock using a specific template, output valid YAML inside a ```codex block that adheres to the schema. Set the 'template' field to the template ID.\n\n",
        );
        proof {
            assert(self@.templates.take(n as int) =~= self@.templates);
            assert(out@ =~= old(out)@ + templates_section(self@.templates));
        }
    }

    /// Append every chunk's file block to `out`.
    fn append_chunk_blocks(&self, out: &mut String)
        ensures
            final(out)@ == old(out)@ + chunks_block(self@.chunks),
    {
        let n = self.context_chunks.len();
        let mut i: usize = 0;
        while i < n
            invariant
                n == self.context_chunks@.len(),
                i <= n,
                out@ == old(out)@ + chunks_block(self@.chunks.take(i as int)),
            decreases n - i,
        {
            let c = &self.context_chunks[i];
            out.append("--- BEGIN FILE: ");
            out.append(c.relative_path.as_str());
            out.append(" ---\n");
            out.append(c.content.as_str());
            out.append("\n--- END FILE: ");
            out.append(c.relative_path.as_str());
            out.append(" ---\n\n");
            proof {
                let cs = self@.chunks;
                assert(cs.take(i + 1).drop_last() =~= cs.take(i as int));
                assert(cs.take(i + 1).last() == cs[i as int]);
                assert(out@ =~= old(out)@ + chunks_block(cs.take(i + 1)));
            }
            i += 1;
        }
        proof {
            assert(self@.chunks.take(n as int) =~= self@.chunks);
        }
    }
}

} // verus!
