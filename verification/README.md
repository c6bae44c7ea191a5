# rasura_layout

Reconstruction of a page description: positioned glyphs become lines, words,
blocks, paragraphs, tables, running headers and footers, footnotes and a document
model with a reading order, and the frames that the text runs through are inferred
from it. The library is written and verified in Verus.

## What is proved

Each executable function states what it returns over a mathematical model of its
arguments, and Verus proves it. Beyond that, the laws (`law_…`) say what holds of
the whole:

- region detection, line assembly and cell assignment lose no glyph, no line of a
  region is empty, and paragraph splitting loses no line;
- a glyph of a page is in a table of the model or else, once, in the lines of a
  block, and the model lists every block exactly once;
- style runs, words and drawings partition what they are made of;
- every name of the glyph list resolves to the list's text, a suffixed variant
  resolves as its base, a ligature as its components, and a name that carries no
  information to nothing;
- a producer's own mapping wins over every inference;
- in a structure tree, parents and children agree, and a walk leaves the elements
  read before it as they were;
- running elements repeat in the margin on three pages or more, and a template
  that two texts make fits both;
- a handle that was closed never comes to name a document again, and a failed
  operation leaves what was staged before it.

## Layout

- `src/` is the library. Coordinates are of any type that implements
  `scalar::Scalar`; `scalar::Fixed` is a fixed-point one. `objects`, `content` and
  `extract` hold what is read out of a file as plain values.
- `src/values.rs`, `convert.rs`, `answers.rs` and `session.rs` are the plain-value
  side of a binding: requests, answers and the registry of open documents.
- `app/` holds floating-point coordinates, the JavaScript binding and the reports
  written for people.
- `tests/` takes small files through the whole reconstruction.

## The glyph list

`src/glyphdata.rs` holds the names and code points of the Adobe Glyph List, which
is distributed under these terms:

> Copyright 2002-2019 Adobe (http://www.adobe.com/).
>
> Redistribution and use in source and binary forms, with or
> without modification, are permitted provided that the
> following conditions are met:
>
> Redistributions of source code must retain the above
> copyright notice, this list of conditions and the following
> disclaimer.
>
> Redistributions in binary form must reproduce the above
> copyright notice, this list of conditions and the following
> disclaimer in the documentation and/or other materials
> provided with the distribution.
>
> Neither the name of Adobe nor the names of its contributors
> may be used to endorse or promote products derived from this
> software without specific prior written permission.
>
> THIS SOFTWARE IS PROVIDED BY THE COPYRIGHT HOLDERS AND
> CONTRIBUTORS "AS IS" AND ANY EXPRESS OR IMPLIED WARRANTIES,
> INCLUDING, BUT NOT LIMITED TO, THE IMPLIED WARRANTIES OF
> MERCHANTABILITY AND FITNESS FOR A PARTICULAR PURPOSE ARE
> DISCLAIMED. IN NO EVENT SHALL THE COPYRIGHT HOLDER OR
> CONTRIBUTORS BE LIABLE FOR ANY DIRECT, INDIRECT, INCIDENTAL,
> SPECIAL, EXEMPLARY, OR CONSEQUENTIAL DAMAGES (INCLUDING, BUT
> NOT LIMITED TO, PROCUREMENT OF SUBSTITUTE GOODS OR SERVICES;
> LOSS OF USE, DATA, OR PROFITS; OR BUSINESS INTERRUPTION)
> HOWEVER CAUSED AND ON ANY THEORY OF LIABILITY, WHETHER IN
> CONTRACT, STRICT LIABILITY, OR TORT (INCLUDING NEGLIGENCE OR
> OTHERWISE) ARISING IN ANY WAY OUT OF THE USE OF THIS
> SOFTWARE, EVEN IF ADVISED OF THE POSSIBILITY OF SUCH DAMAGE.
