# fallow

Verified scanners and decision logic of the fallow static analyzer for
JavaScript/TypeScript projects, written in Verus.

## Layout

- `src/` is the verified library.
  - `text.rs`: byte-level helpers (whitespace, line feeds, UTF-8, decimal digits, byte order).
  - `css_classes.rs`, `tailwind.rs`, `sfc_css.rs`, `regex_scan.rs`: markup class
    tokens and typo candidates, Tailwind arbitrary values, the virtual stylesheet
    and the unused scoped classes of single-file components; `regex` is called
    through trusted wrappers.
  - `sfc_props.rs`: the props and emits a Vue `<script setup>`, an Options-API
    component or a Svelte 5 script declares, and which the script uses, over a
    model of the script's statements and of what a syntax walk finds in it.
  - `template_complexity/`: cyclomatic and cognitive complexity of Vue templates.
  - `re_exports/`: re-export chain propagation over the module graph and the
    re-export cycles, found with a Tarjan SCC proved to return exactly the
    strongly connected components in reverse topological order; `settle.rs`
    and `bound.rs` prove that on graphs whose references and import edges come
    from files of the graph, and where no star re-export can synthesize
    exports, the work-queue propagation never reaches its step cap and ends at
    a fixpoint (no edge has anything left to add).
  - `cache.rs`: the least-recently-used eviction plan of the extraction cache.
  - `security.rs`: which calls and literals are recorded as security sinks, and
    route recognition; `sink_args.rs`: the identifiers and the source paths a
    sink argument is built from; `sink_literals.rs`: the static value of a sink
    argument.
  - `inventory.rs`: coverage-compatible function names, line offsets and
    positions, the walker that turns a syntax walk's events into inventory
    entries, and the plan that picks the parse (with the JSX retry).
  - `complexity.rs`: per-function cyclomatic and cognitive complexity as a
    syntax walk reports it, with the breakdown proved to add up to the totals.
  - `lsp/`: document staleness, UTF-16 positions, code lens and hover text,
    diagnostics filtering.
  - `sveltekit.rs`: SvelteKit load type names, and the keys of the object a
    `load` returns, over a model of the exported declaration.
- `app/` is the unverified edge: file reads, `ls_types` conversions, the
  encode/evict loop of the cache, and the oxc syntax walks that feed the
  complexity tracker and the inventory walker, and build the script,
  sink-argument and `load` models.
- `tests/` exercise the library on concrete values.
