//! The block of markup, style and script that makes the wrapped words
//! work in a viewer, and its insertion into a document.
//!
//! A click on a word calls the handler `window.translate`, which strips a
//! few punctuation marks from the word, asks a companion service for its
//! translation (`/translate`, with the text and the language) and for
//! speech (`/synth`, with the text), and shows both in a modal overlay.
//!
//! The language is put into the script as it is given. Nothing is escaped:
//! a language that holds a quote breaks the script.

use crate::text::{
    char_is_whitespace, find_index_last, find_last, is_whitespace, lemma_find_last_is_last,
    matches_at, push_range, to_chars,
};
use vstd::prelude::*;
use vstd::slice::slice_subrange;
use vstd::string::StringExecFns;

verus! {

/// The block that is put into each document, before the language is set.
pub const SCRIPT: &'static str = r#"
<div id="myModal" class="modal">
    <div class="modal-content" id="modal-content">
        <div id="container">
            <div class="word-box">
                <h1 id="original"></h1>
                <button id="audio-btn">Play</button>
            </div>
            <div id="translation"></div>
        </div>
        <div id="spinner"></div>
    </div>
</div>

<style>
    .word-box {
        display: flex;
        gap: 10px;
        justifyContent: 'center';
        cursor: pointer;
    }

    /* CSS for modal */
    .modal {
        display: none; /* Hidden by default */
        position: fixed; /* Stay in place */
        z-index: 1; /* Sit on top */
        left: 0;
        top: 0;
        width: 100%; /* Full width */
        height: 100%; /* Full height */
        overflow: auto; /* Enable scroll if needed */
        background-color: rgb(0,0,0); /* Fallback color */
        background-color: rgba(0,0,0,0.4); /* Black w/ opacity */
    }

    .modal-content {
        background-color: #fefefe;
        margin: 15% auto; /* 15% from the top and centered */
        padding: 20px;
        border: 1px solid #888;
    }

    .close {
        color: #aaa;
        float: right;
        font-size: 28px;
        font-weight: bold;
    }

    .close:hover,
    .close:focus {
        color: black;
        text-decoration: none;
        cursor: pointer;
    }
</style>
<script type="text/javascript">
    const CircularLoader = {
        loader: null,
        canvas: null,
        ctx: null,
        size: 50,
        lineWidth: 5,
        rotationSpeed: 5,
        color: '#000000',
        rotation: 0,

        init(container, options = {}) {
            this.size = options.size || this.size;
            this.lineWidth = options.lineWidth || this.lineWidth;
            this.rotationSpeed = options.rotationSpeed || this.rotationSpeed;
            this.color = options.color || this.color;

            this.canvas = document.createElement('canvas');
            this.canvas.width = this.size;
            this.canvas.height = this.size;
            this.ctx = this.canvas.getContext('2d');

            this.loader = document.createElement('div');
            this.loader.style.width = `${this.size}px`;
            this.loader.style.height = `${this.size}px`;
            this.loader.style.position = 'relative';
            this.loader.style.display = 'inline-block';
            this.loader.appendChild(this.canvas);

            if (container) {
                container.appendChild(this.loader);
            }

            this.draw();
            this.start();

            return this.loader;
        },

        draw() {
            const centerX = this.size / 2;
            const centerY = this.size / 2;
            const radius = (this.size - this.lineWidth) / 2;

            this.ctx.clearRect(0, 0, this.size, this.size);
            this.ctx.beginPath();
            this.ctx.arc(centerX, centerY, radius, 0, Math.PI * 1.5);
            this.ctx.strokeStyle = this.color;
            this.ctx.lineWidth = this.lineWidth;
            this.ctx.lineCap = 'round';
            this.ctx.stroke();
        },

        rotate() {
            this.rotation += this.rotationSpeed;
            this.canvas.style.transform = `rotate(${this.rotation}deg)`;
            requestAnimationFrame(() => this.rotate());
        },

        start() {
            this.rotate();
        },

        stop() {
            cancelAnimationFrame(this.rotate);
        },

        show() {
            this.loader.style.display = 'inline-block';
        },

        hide() {
            this.loader.style.display = 'none';
        }
    };

    const getSpeechFromText = async (text, language) => {
        try {
            const response = await fetch('http://localhost:3000/synth', {
                method: 'POST',
                headers: {
                    'Content-Type': 'application/json',
                },
                body: JSON.stringify({ text }),
            });

            if (!response.ok) {
                throw new Error(`HTTP error! status: ${response.status}`);
            }

            const audioBlob = await response.blob();
            return audioBlob;
        } catch (error) {
            console.error("Error:", error);
        }
    };

    const getTranslation = async (
        text, 
        language, 
    ) => {
        try {
            const response = await fetch('http://localhost:3000/translate', {
                method: 'POST',
                headers: {
                    'Content-Type': 'application/json',
                },
                body: JSON.stringify({ text, language }),
            });
            
            if (!response.ok) {
                throw new Error('Translation request failed');
            }
            
            const data = await response.json();
            return data.translation_text;
        } catch (error) {
            console.error(error);
            throw error;
        }
    };

    function stripPuncs(text) {
        return text
            .replace('.', '')
            .replace(',', '')
            .replace('?', '')
            .replace('!', '')
            .replace('Â¿', '');
    }

    const getSelectedText = () => {
        // window.getSelection() method
        if (window.getSelection) {
            return window.getSelection().toString();
        }
        // document.selection for older IE versions
        else if (document.selection && document.selection.type != "Control") {
            return document.selection.createRange().text;
        }
        return '';
    }

    // Event listener for when text is selected
    document.addEventListener('mouseup', function() {
        const selectedText = getSelectedText();
        if (selectedText) {
            console.log('Selected text:', selectedText);
        }
    });

    const modal = document.getElementById('myModal');
    const modalContent = document.getElementById('modal-content');
    const original = document.getElementById('original');
    const translation = document.getElementById('translation');
    const audioButton = document.getElementById('audio-btn');
    const container = document.getElementById('container');
    const spinner = document.getElementById('spinner');

    const loader = Object.create(CircularLoader);
    loader.init(spinner, {
        size: 60,
        lineWidth: 6,
        rotationSpeed: 8,
        color: '#3498db'
    });

    window.onclick = function(event) {
        if (event.target == modal) {
            modal.style.display = 'none';
        }
    }

    window.currentAudioBlob = undefined;
    audioButton.onclick = async function () {
        if (window.currentAudioBlob) {
            const audioUrl = URL.createObjectURL(window.currentAudioBlob);
            const audio = new Audio(audioUrl);
            await audio.play();
        }
    }

    window.addEventListener('DOMContentLoaded', function () {
        window.translate = function(element) {
            container.style.display = 'none';
            loader.start();
            loader.show();
            modal.style.display = 'block';
            window.currentAudioBlob = undefined;
            const text = stripPuncs(element.innerText);
            getTranslation(text, language).then(translated_text => {
                original.innerText = text;
                translation.innerText = translated_text;
                window.currentAudioBlob = 
                getSpeechFromText(text, language).then(audioBlob => {
                    window.currentAudioBlob = audioBlob;
                    loader.stop();
                    loader.hide();
                    container.style.display = 'block';
                });
            });
        }
    });

</script>"#;

/// The line of the block after which the language is declared.
pub const SCRIPT_TAG: &'static str = "<script type=\"text/javascript\">";

/// What stands before the language in its declaration.
pub const LANGUAGE_PREFIX: &'static str = "    const language = \"";

/// What stands after the language in its declaration.
pub const LANGUAGE_SUFFIX: &'static str = "\";";

/// The tag before the last occurrence of which the block is put.
pub const BODY_CLOSE: &'static str = "</body>";

/// The line that declares the language to the script.
pub open spec fn language_line(language: Seq<char>) -> Seq<char> {
    LANGUAGE_PREFIX@ + language + LANGUAGE_SUFFIX@
}

/// The number of characters before the first line feed of `text`, or the
/// length of `text` where it has none.
pub open spec fn line_len(text: Seq<char>) -> int
    decreases text.len(),
{
    if text.len() == 0 || text[0] == '\n' {
        0
    } else {
        1 + line_len(text.skip(1))
    }
}

/// The first line of `text`, without its line ending: a line feed, or a
/// carriage return and a line feed. A carriage return at the end of a last
/// line that no line feed ends belongs to the line.
pub open spec fn first_line(text: Seq<char>) -> Seq<char> {
    let n = line_len(text);
    if 0 < n < text.len() && text[n - 1] == '\r' {
        text.take(n - 1)
    } else {
        text.take(n)
    }
}

/// What follows the first line of `text` and its line ending.
pub open spec fn after_first_line(text: Seq<char>) -> Seq<char> {
    let n = line_len(text);
    if n < text.len() {
        text.skip(n + 1)
    } else {
        Seq::empty()
    }
}

/// `text` without the whitespace at its start.
pub open spec fn trimmed_start(text: Seq<char>) -> Seq<char>
    decreases text.len(),
{
    if text.len() > 0 && is_whitespace(text[0]) {
        trimmed_start(text.skip(1))
    } else {
        text
    }
}

/// `text` without the whitespace at its end.
pub open spec fn trimmed_end(text: Seq<char>) -> Seq<char>
    decreases text.len(),
{
    if text.len() > 0 && is_whitespace(text.last()) {
        trimmed_end(text.drop_last())
    } else {
        text
    }
}

/// `text` without the whitespace at its start and at its end.
pub open spec fn trimmed(text: Seq<char>) -> Seq<char> {
    trimmed_end(trimmed_start(text))
}

/// Whether a line is the one after which the language is declared.
pub open spec fn is_script_tag_line(line: Seq<char>) -> bool {
    trimmed(line) == SCRIPT_TAG@
}

/// The script with the language declared.
///
/// Every line is followed by one line feed, whatever ended it, the last
/// line too. After each line that is, but for whitespace around it, the
/// opening script tag, the declaration of the language follows as a line
/// of its own.
pub open spec fn with_language(script: Seq<char>, language: Seq<char>) -> Seq<char>
    decreases script.len(),
    via with_language_decreases
{
    if script.len() == 0 {
        Seq::empty()
    } else {
        first_line(script) + seq!['\n'] + (if is_script_tag_line(first_line(script)) {
            language_line(language) + seq!['\n']
        } else {
            Seq::empty()
        }) + with_language(after_first_line(script), language)
    }
}

#[via_fn]
proof fn with_language_decreases(script: Seq<char>, language: Seq<char>) {
    lemma_line_len_bounds(script);
}

/// The document with the block for `language` put before the last
/// `</body>`, or at the end where there is none.
pub open spec fn injected(html: Seq<char>, language: Seq<char>) -> Seq<char> {
    match find_last(html, BODY_CLOSE@) {
        Some(b) => html.take(b) + with_language(SCRIPT@, language) + html.skip(b),
        None => html + with_language(SCRIPT@, language),
    }
}

/// Whether a text brings no start of a paragraph, whatever stands before
/// it: every `p` of it follows a character of it that is not `<`.
pub open spec fn brings_no_paragraph(text: Seq<char>) -> bool {
    forall|i: int| 0 <= i < text.len() && #[trigger] text[i] == 'p' ==> i > 0 && text[i - 1] != '<'
}

/// Whether `</p>` stands nowhere in a text.
pub open spec fn holds_no_close(text: Seq<char>) -> bool {
    forall|i: int|
        0 <= i && i + 3 < text.len() && #[trigger] text[i] == '<' ==> !(text[i + 1] == '/' && text[i
            + 2] == 'p' && text[i + 3] == '>')
}

/// The first line ends within the text, at a line feed or at the end.
pub proof fn lemma_line_len_bounds(text: Seq<char>)
    ensures
        0 <= line_len(text) <= text.len(),
        line_len(text) < text.len() ==> text[line_len(text)] == '\n',
        forall|j: int| 0 <= j < line_len(text) ==> text[j] != '\n',
    decreases text.len(),
{
    if text.len() == 0 || text[0] == '\n' {
    } else {
        lemma_line_len_bounds(text.skip(1));
        assert forall|j: int| 0 <= j < line_len(text) implies text[j] != '\n' by {
            if j > 0 {
                assert(text.skip(1)[j - 1] == text[j]);
            }
        }
    }
}

/// The length of the first line of `text` with what ends it, apart from
/// the line feed.
fn line_len_of(text: &[char]) -> (n: usize)
    ensures
        n == line_len(text@),
        n <= text.len(),
{
    let mut n: usize = 0;
    assert(text@.skip(0) =~= text@);
    while n < text.len() && text[n] != '\n'
        invariant
            n <= text.len(),
            line_len(text@) == n + line_len(text@.skip(n as int)),
        decreases text.len() - n,
    {
        proof {
            assert(text@.skip(n as int).skip(1) =~= text@.skip(n + 1));
        }
        n += 1;
    }
    n
}

/// Whether a line is, but for whitespace around it, the opening script tag.
fn line_is_script_tag(line: &[char]) -> (b: bool)
    ensures
        b == is_script_tag_line(line@),
{
    let mut a: usize = 0;
    assert(line@.skip(0) =~= line@);
    while a < line.len() && char_is_whitespace(line[a])
        invariant
            a <= line.len(),
            trimmed_start(line@) == trimmed_start(line@.skip(a as int)),
        decreases line.len() - a,
    {
        proof {
            assert(line@.skip(a as int).skip(1) =~= line@.skip(a + 1));
        }
        a += 1;
    }
    let mut b: usize = line.len();
    assert(line@.subrange(a as int, b as int) =~= line@.skip(a as int));
    while b > a && char_is_whitespace(line[b - 1])
        invariant
            a <= b <= line.len(),
            trimmed(line@) == trimmed_end(line@.subrange(a as int, b as int)),
        decreases b,
    {
        proof {
            assert(line@.subrange(a as int, b as int).drop_last() =~= line@.subrange(
                a as int,
                b - 1,
            ));
        }
        b -= 1;
    }
    let tag = to_chars(SCRIPT_TAG);
    if b - a != tag.len() {
        return false;
    }
    matches_at(line, tag.as_slice(), a)
}

/// Declares the language in a script: after each line that is the opening
/// script tag, a line that assigns the language to a constant.
pub fn add_language_to_script(script: &str, language: &str) -> (result: String)
    ensures
        result@ == with_language(script@, language@),
{
    let chars = to_chars(script);
    let mut result = String::new();
    let mut pos: usize = 0;
    assert(chars@.skip(0) =~= chars@);
    while pos < chars.len()
        invariant
            pos <= chars.len(),
            chars@ == script@,
            with_language(script@, language@) == result@ + with_language(
                chars@.skip(pos as int),
                language@,
            ),
        decreases chars.len() - pos,
    {
        let rest = slice_subrange(chars.as_slice(), pos, chars.len());
        let n = line_len_of(rest);
        let end: usize = if 0 < n && n < rest.len() && rest[n - 1] == '\r' {
            n - 1
        } else {
            n
        };
        let line = slice_subrange(rest, 0, end);
        let ghost before = result@;
        let ghost tail = with_language(after_first_line(rest@), language@);
        proof {
            assert(rest@ =~= chars@.skip(pos as int));
            assert(line@ =~= first_line(rest@));
        }
        push_range(&mut result, rest, 0, end);
        result.append("\n");
        let is_tag = line_is_script_tag(line);
        if is_tag {
            result.append(LANGUAGE_PREFIX);
            result.append(language);
            result.append(LANGUAGE_SUFFIX);
            result.append("\n");
        }
        proof {
            reveal_strlit("\n");
            assert("\n"@ =~= seq!['\n']);
            if is_tag {
                assert(before + (line@ + seq!['\n'] + (language_line(language@) + seq!['\n'])
                    + tail) =~= result@ + tail);
            } else {
                assert(before + (line@ + seq!['\n'] + Seq::<char>::empty() + tail) =~= result@
                    + tail);
            }
        }
        if n < rest.len() {
            proof {
                assert(after_first_line(rest@) =~= chars@.skip(pos + n + 1));
            }
            pos = pos + n + 1;
        } else {
            proof {
                assert(after_first_line(rest@) =~= chars@.skip(pos + n));
            }
            pos = pos + n;
        }
    }
    assert(result@ + with_language(chars@.skip(pos as int), language@) =~= result@);
    result
}

/// Puts the block for `language` into a document: before the last
/// `</body>`, or at the end where the document has none.
pub fn inject_script(html: &str, language: &str) -> (result: String)
    ensures
        result@ == injected(html@, language@),
{
    let block = add_language_to_script(SCRIPT, language);
    let doc = to_chars(html);
    let close = to_chars(BODY_CLOSE);
    let mut result = String::new();
    match find_index_last(doc.as_slice(), close.as_slice()) {
        Some(b) => {
            proof {
                lemma_find_last_is_last(doc@, close@);
            }
            push_range(&mut result, doc.as_slice(), 0, b);
            result.append(block.as_str());
            push_range(&mut result, doc.as_slice(), b, doc.len());
            proof {
                assert(result@ =~= doc@.take(b as int) + block@ + doc@.skip(b as int));
            }
        },
        None => {
            result.append(html);
            result.append(block.as_str());
            proof {
                assert(result@ =~= html@ + block@);
            }
        },
    }
    result
}

/// The block, before the language is set, starts with a line feed, brings
/// no start of a paragraph and holds no end of one. The proof goes through
/// the block character by character, so it holds the block once more.
pub proof fn lemma_script_brings_no_paragraph()
    ensures
        SCRIPT@.len() > 0,
        SCRIPT@[0] == '\n',
        brings_no_paragraph(SCRIPT@),
        holds_no_close(SCRIPT@),
{
    reveal_strlit(r#"
<div id="myModal" class="modal">
    <div class="modal-content" id="modal-content">
        <div id="container">
            <div class="word-box">
                <h1 id="original"></h1>
                <button id="audio-btn">Play</button>
            </div>
            <div id="translation"></div>
        </div>
        <div id="spinner"></div>
    </div>
</div>

<style>
    .word-box {
        display: flex;
        gap: 10px;
        justifyContent: 'center';
        cursor: pointer;
    }

    /* CSS for modal */
    .modal {
        display: none; /* Hidden by default */
        position: fixed; /* Stay in place */
        z-index: 1; /* Sit on top */
        left: 0;
        top: 0;
        width: 100%; /* Full width */
        height: 100%; /* Full height */
        overflow: auto; /* Enable scroll if needed */
        background-color: rgb(0,0,0); /* Fallback color */
        background-color: rgba(0,0,0,0.4); /* Black w/ opacity */
    }

    .modal-content {
        background-color: #fefefe;
        margin: 15% auto; /* 15% from the top and centered */
        padding: 20px;
        border: 1px solid #888;
    }

    .close {
        color: #aaa;
        float: right;
        font-size: 28px;
        font-weight: bold;
    }

    .close:hover,
    .close:focus {
        color: black;
        text-decoration: none;
        cursor: pointer;
    }
</style>
<script type="text/javascript">
    const CircularLoader = {
        loader: null,
        canvas: null,
        ctx: null,
        size: 50,
        lineWidth: 5,
        rotationSpeed: 5,
        color: '#000000',
        rotation: 0,

        init(container, options = {}) {
            this.size = options.size || this.size;
            this.lineWidth = options.lineWidth || this.lineWidth;
            this.rotationSpeed = options.rotationSpeed || this.rotationSpeed;
            this.color = options.color || this.color;

            this.canvas = document.createElement('canvas');
            this.canvas.width = this.size;
            this.canvas.height = this.size;
            this.ctx = this.canvas.getContext('2d');

            this.loader = document.createElement('div');
            this.loader.style.width = `${this.size}px`;
            this.loader.style.height = `${this.size}px`;
            this.loader.style.position = 'relative';
            this.loader.style.display = 'inline-block';
            this.loader.appendChild(this.canvas);

            if (container) {
                container.appendChild(this.loader);
            }

            this.draw();
            this.start();

            return this.loader;
        },

        draw() {
            const centerX = this.size / 2;
            const centerY = this.size / 2;
            const radius = (this.size - this.lineWidth) / 2;

            this.ctx.clearRect(0, 0, this.size, this.size);
            this.ctx.beginPath();
            this.ctx.arc(centerX, centerY, radius, 0, Math.PI * 1.5);
            this.ctx.strokeStyle = this.color;
            this.ctx.lineWidth = this.lineWidth;
            this.ctx.lineCap = 'round';
            this.ctx.stroke();
        },

        rotate() {
            this.rotation += this.rotationSpeed;
            this.canvas.style.transform = `rotate(${this.rotation}deg)`;
            requestAnimationFrame(() => this.rotate());
        },

        start() {
            this.rotate();
        },

        stop() {
            cancelAnimationFrame(this.rotate);
        },

        show() {
            this.loader.style.display = 'inline-block';
        },

        hide() {
            this.loader.style.display = 'none';
        }
    };

    const getSpeechFromText = async (text, language) => {
        try {
            const response = await fetch('http://localhost:3000/synth', {
                method: 'POST',
                headers: {
                    'Content-Type': 'application/json',
                },
                body: JSON.stringify({ text }),
            });

            if (!response.ok) {
                throw new Error(`HTTP error! status: ${response.status}`);
            }

            const audioBlob = await response.blob();
            return audioBlob;
        } catch (error) {
            console.error("Error:", error);
        }
    };

    const getTranslation = async (
        text, 
        language, 
    ) => {
        try {
            const response = await fetch('http://localhost:3000/translate', {
                method: 'POST',
                headers: {
                    'Content-Type': 'application/json',
                },
                body: JSON.stringify({ text, language }),
            });
            
            if (!response.ok) {
                throw new Error('Translation request failed');
            }
            
            const data = await response.json();
            return data.translation_text;
        } catch (error) {
            console.error(error);
            throw error;
        }
    };

    function stripPuncs(text) {
        return text
            .replace('.', '')
            .replace(',', '')
            .replace('?', '')
            .replace('!', '')
            .replace('Â¿', '');
    }

    const getSelectedText = () => {
        // window.getSelection() method
        if (window.getSelection) {
            return window.getSelection().toString();
        }
        // document.selection for older IE versions
        else if (document.selection && document.selection.type != "Control") {
            return document.selection.createRange().text;
        }
        return '';
    }

    // Event listener for when text is selected
    document.addEventListener('mouseup', function() {
        const selectedText = getSelectedText();
        if (selectedText) {
            console.log('Selected text:', selectedText);
        }
    });

    const modal = document.getElementById('myModal');
    const modalContent = document.getElementById('modal-content');
    const original = document.getElementById('original');
    const translation = document.getElementById('translation');
    const audioButton = document.getElementById('audio-btn');
    const container = document.getElementById('container');
    const spinner = document.getElementById('spinner');

    const loader = Object.create(CircularLoader);
    loader.init(spinner, {
        size: 60,
        lineWidth: 6,
        rotationSpeed: 8,
        color: '#3498db'
    });

    window.onclick = function(event) {
        if (event.target == modal) {
            modal.style.display = 'none';
        }
    }

    window.currentAudioBlob = undefined;
    audioButton.onclick = async function () {
        if (window.currentAudioBlob) {
            const audioUrl = URL.createObjectURL(window.currentAudioBlob);
            const audio = new Audio(audioUrl);
            await audio.play();
        }
    }

    window.addEventListener('DOMContentLoaded', function () {
        window.translate = function(element) {
            container.style.display = 'none';
            loader.start();
            loader.show();
            modal.style.display = 'block';
            window.currentAudioBlob = undefined;
            const text = stripPuncs(element.innerText);
            getTranslation(text, language).then(translated_text => {
                original.innerText = text;
                translation.innerText = translated_text;
                window.currentAudioBlob = 
                getSpeechFromText(text, language).then(audioBlob => {
                    window.currentAudioBlob = audioBlob;
                    loader.stop();
                    loader.hide();
                    container.style.display = 'block';
                });
            });
        }
    });

</script>"#);
}

} // verus!
