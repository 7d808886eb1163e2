use batch_scheduler::chat::{render_chat_template, Message};

fn msg(role: &str, content: &str) -> Message {
    Message { role: role.to_string(), content: content.to_string() }
}

fn trim_lines(source: &str) -> String {
    source.lines().map(|line| line.trim()).collect::<Vec<&str>>().join("")
}

fn render(
    template: &str,
    messages: &[(&str, &str)],
    bos: &str,
    eos: &str,
    add_generation_prompt: bool,
) -> Result<String, batch_scheduler::errors::TemplateFailure> {
    let messages: Vec<Message> = messages.iter().map(|(r, c)| msg(r, c)).collect();
    render_chat_template(
        &template.to_string(),
        &messages,
        &Some(bos.to_string()),
        &Some(eos.to_string()),
        add_generation_prompt,
    )
}

#[test]
fn test_chat_template() {
    let source = r#"
    {% for message in messages %}
        {% if message['role'] == 'system' %}
            {% if message['content']%}
                {{'### System:\n' + message['content']+'\n\n'}}
            {% endif %}
        {% elif message['role'] == 'user' %}
            {{'### User:\n' + message['content']+'\n\n'}}
        {% elif message['role'] == 'assistant' %}
            {{'### Assistant:\n'  + message['content']}}
        {% endif %}
        {% if loop.last and add_generation_prompt %}
            {{ '### Assistant:\n' }}
        {% endif %}
    {% endfor %}"#;
    let source = trim_lines(source);

    let result = render(
        &source,
        &[
            ("user", "Hi!"),
            ("assistant", "Hello how can I help?"),
            ("user", "What is Deep Learning?"),
            ("assistant", "magic!"),
        ],
        "[BOS]",
        "[EOS]",
        true,
    )
    .unwrap();

    assert_eq!(
        result,
        "### User:\nHi!\n\n### Assistant:\nHello how can I help?### User:\nWhat is Deep Learning?\n\n### Assistant:\nmagic!### Assistant:\n"
    );
}

#[test]
fn test_chat_template_invalid_with_raise() {
    let source = r#"
    {{ bos_token }}
    {% for message in messages %}
    {% if (message['role'] == 'user') != (loop.index0 % 2 == 0) %}
    {{ raise_exception('Conversation roles must alternate user/assistant/user/assistant/...') }}
    {% endif %}
    {% if message['role'] == 'user' %}
    {{ '[INST] ' + message['content'] + ' [/INST]' }}
    {% elif message['role'] == 'assistant' %}
    {{ message['content'] + eos_token}}
    {% else %}
    {{ raise_exception('Only user and assistant roles are supported!') }}
    {% endif %}
    {% endfor %}"#;
    let source = trim_lines(source);

    let result = render(
        &source,
        &[
            ("user", "Hi!"),
            ("user", "Hi again!"),
            ("assistant", "Hello how can I help?"),
            ("user", "What is Deep Learning?"),
            ("assistant", "magic!"),
        ],
        "[BOS]",
        "[EOS]",
        true,
    );

    match result {
        Ok(_) => panic!("Should have failed"),
        Err(e) => {
            assert_eq!(
                e.detail.unwrap(),
                "Conversation roles must alternate user/assistant/user/assistant/..."
            );
        }
    }
}

#[test]
fn test_chat_template_valid_with_raise() {
    let source = r#"
    {{ bos_token }}
    {% for message in messages %}
    {% if (message['role'] == 'user') != (loop.index0 % 2 == 0) %}
    {{ raise_exception('Conversation roles must alternate user/assistant/user/assistant/...') }}
    {% endif %}
    {% if message['role'] == 'user' %}
    {{ '[INST] ' + message['content'] + ' [/INST]' }}
    {% elif message['role'] == 'assistant' %}
    {{ message['content'] + eos_token}}
    {% else %}
    {{ raise_exception('Only user and assistant roles are supported!') }}
    {% endif %}
    {% endfor %}"#;
    let source = trim_lines(source);

    let result = render(
        &source,
        &[
            ("user", "Hi!"),
            ("assistant", "Hello how can I help?"),
            ("user", "What is Deep Learning?"),
            ("assistant", "magic!"),
        ],
        "[BOS]",
        "[EOS]",
        true,
    )
    .unwrap();
    assert_eq!(
        result,
        "[BOS][INST] Hi! [/INST]Hello how can I help?[EOS][INST] What is Deep Learning? [/INST]magic![EOS]"
    );
}

#[test]
fn test_chat_template_valid_with_add_generation_prompt() {
    let source = r#"
    {% for message in messages %}
    {{'<|im_start|>' + message['role'] + '\n' + message['content'] + '<|im_end|>' + '\n'}}
    {% endfor %}
    {% if add_generation_prompt %}
        {{ '<|im_start|>assistant\n' }}
    {% endif %}"#;
    let source = trim_lines(source);

    let result = render(
        &source,
        &[
            ("user", "Hi!"),
            ("assistant", "Hello how can I help?"),
            ("user", "What is Deep Learning?"),
            ("assistant", "magic!"),
        ],
        "[BOS]",
        "[EOS]",
        true,
    )
    .unwrap();
    assert_eq!(result, "<|im_start|>user\nHi!<|im_end|>\n<|im_start|>assistant\nHello how can I help?<|im_end|>\n<|im_start|>user\nWhat is Deep Learning?<|im_end|>\n<|im_start|>assistant\nmagic!<|im_end|>\n<|im_start|>assistant\n");
}

#[test]
fn test_many_chat_templates() {
    let example_chat = vec![
        ("user", "Hello, how are you?"),
        ("assistant", "I'm doing great. How can I help you today?"),
        ("user", "I'd like to show off how chat templating works!"),
    ];

    let example_chat_with_system = vec![(
        "system",
        "You are a friendly chatbot who always responds in the style of a pirate",
    )]
    .iter()
    .chain(&example_chat)
    .cloned()
    .collect::<Vec<_>>();

    let test_default_templates = vec![
        (
            "_base",
            "{% for message in messages %}{{'<|im_start|>' + message['role'] + '\\n' + message['content'] + '<|im_end|>' + '\\n'}}{% endfor %}{% if add_generation_prompt %}{{ '<|im_start|>assistant\\n' }}{% endif %}",
            example_chat.clone(),
            false,
            "",
            "",
            "<|im_start|>user\nHello, how are you?<|im_end|>\n<|im_start|>assistant\nI'm doing great. How can I help you today?<|im_end|>\n<|im_start|>user\nI'd like to show off how chat templating works!<|im_end|>\n",
        ),
        (
            "blenderbot",
            "{% for message in messages %}{% if message['role'] == 'user' %}{{ ' ' }}{% endif %}{{ message['content'] }}{% if not loop.last %}{{ '  ' }}{% endif %}{% endfor %}{{ eos_token }}",
            example_chat.clone(),
            false,
            "",
            "</s>",
            " Hello, how are you?  I'm doing great. How can I help you today?   I'd like to show off how chat templating works!</s>",
        ),
        (
            "blenderbot_small",
            "{% for message in messages %}{% if message['role'] == 'user' %}{{ ' ' }}{% endif %}{{ message['content'] }}{% if not loop.last %}{{ '  ' }}{% endif %}{% endfor %}{{ eos_token }}",
            example_chat.clone(),
            false,
            "",
            "</s>",
            " Hello, how are you?  I'm doing great. How can I help you today?   I'd like to show off how chat templating works!</s>",
        ),
        (
            "bloom",
            "{% for message in messages %}{{ message.content }}{{ eos_token }}{% endfor %}",
            example_chat.clone(),
            false,
            "",
            "</s>",
            "Hello, how are you?</s>I'm doing great. How can I help you today?</s>I'd like to show off how chat templating works!</s>",
        ),
        (
            "gpt_neox",
            "{% for message in messages %}{{ message.content }}{{ eos_token }}{% endfor %}",
            example_chat.clone(),
            false,
            "",
            "<|endoftext|>",
            "Hello, how are you?<|endoftext|>I'm doing great. How can I help you today?<|endoftext|>I'd like to show off how chat templating works!<|endoftext|>",
        ),
        (
            "gpt2",
            "{% for message in messages %}{{ message.content }}{{ eos_token }}{% endfor %}",
            example_chat.clone(),
            false,
            "",
            "<|endoftext|>",
            "Hello, how are you?<|endoftext|>I'm doing great. How can I help you today?<|endoftext|>I'd like to show off how chat templating works!<|endoftext|>",
        ),
        (
            "llama",
            "{% if messages[0]['role'] == 'system' %}{% set loop_messages = messages[1:] %}{% set system_message = messages[0]['content'] %}{% elif USE_DEFAULT_PROMPT == true and not '<<SYS>>' in messages[0]['content'] %}{% set loop_messages = messages %}{% set system_message = 'DEFAULT_SYSTEM_MESSAGE' %}{% else %}{% set loop_messages = messages %}{% set system_message = false %}{% endif %}{% for message in loop_messages %}{% if (message['role'] == 'user') != (loop.index0 % 2 == 0) %}{{ raise_exception('Conversation roles must alternate user/assistant/user/assistant/...') }}{% endif %}{% if loop.index0 == 0 and system_message != false %}{% set content = '<<SYS>>\\n' + system_message + '\\n<</SYS>>\\n\\n' + message['content'] %}{% else %}{% set content = message['content'] %}{% endif %}{% if message['role'] == 'user' %}{{ bos_token + '[INST] ' + content | trim + ' [/INST]' }}{% elif message['role'] == 'system' %}{{ '<<SYS>>\\n' + content | trim + '\\n<</SYS>>\\n\\n' }}{% elif message['role'] == 'assistant' %}{{ ' ' + content | trim + ' ' + eos_token }}{% endif %}{% endfor %}",
            example_chat_with_system.clone(),
            true,
            "<s>",
            "</s>",
            "<s>[INST] <<SYS>>\nYou are a friendly chatbot who always responds in the style of a pirate\n<</SYS>>\n\nHello, how are you? [/INST] I'm doing great. How can I help you today? </s><s>[INST] I'd like to show off how chat templating works! [/INST]",
        ),
        (
            "whisper",
            "{% for message in messages %}{{ message.content }}{{ eos_token }}{% endfor %}",
            example_chat.clone(),
            true,
            "",
            "<|endoftext|>",
            "Hello, how are you?<|endoftext|>I'm doing great. How can I help you today?<|endoftext|>I'd like to show off how chat templating works!<|endoftext|>",
        ),
    ];

    for (_name, chat_template, messages, add_generation_prompt, bos_token, eos_token, target) in
        test_default_templates
    {
        let chat_template = trim_lines(chat_template);
        let result =
            render(&chat_template, &messages, bos_token, eos_token, add_generation_prompt)
                .unwrap();
        assert_eq!(result, target);
    }

    let test_custom_templates = vec![
        (
            "HuggingFaceH4/zephyr-7b-beta (add_generation_prompt=false)",
            "{% for message in messages %}\n{% if message['role'] == 'user' %}\n{{ '<|user|>\\n' + message['content'] + eos_token }}\n{% elif message['role'] == 'system' %}\n{{ '<|system|>\\n' + message['content'] + eos_token }}\n{% elif message['role'] == 'assistant' %}\n{{ '<|assistant|>\\n'  + message['content'] + eos_token }}\n{% endif %}\n{% if loop.last and add_generation_prompt %}\n{{ '<|assistant|>' }}\n{% endif %}\n{% endfor %}",
            example_chat_with_system.clone(),
            false,
            "",
            "</s>",
            "<|system|>\nYou are a friendly chatbot who always responds in the style of a pirate</s><|user|>\nHello, how are you?</s><|assistant|>\nI'm doing great. How can I help you today?</s><|user|>\nI'd like to show off how chat templating works!</s>",
        ),
        (
            "HuggingFaceH4/zephyr-7b-beta (add_generation_prompt=true)",
            "{% for message in messages %}\n{% if message['role'] == 'user' %}\n{{ '<|user|>\\n' + message['content'] + eos_token }}\n{% elif message['role'] == 'system' %}\n{{ '<|system|>\\n' + message['content'] + eos_token }}\n{% elif message['role'] == 'assistant' %}\n{{ '<|assistant|>\\n'  + message['content'] + eos_token }}\n{% endif %}\n{% if loop.last and add_generation_prompt %}\n{{ '<|assistant|>' }}\n{% endif %}\n{% endfor %}",
            vec![
                (
                    "system",
                    "You are a friendly chatbot who always responds in the style of a pirate",
                ),
                ("user", "How many helicopters can a human eat in one sitting?"),
            ],
            true,
            "",
            "</s>",
            "<|system|>\nYou are a friendly chatbot who always responds in the style of a pirate</s><|user|>\nHow many helicopters can a human eat in one sitting?</s><|assistant|>",
        ),
        (
            "HuggingFaceH4/zephyr-7b-gemma-v0.1",
            "{% if messages[0]['role'] == 'user' or messages[0]['role'] == 'system' %}{{ bos_token }}{% endif %}{% for message in messages %}{{ '<|im_start|>' + message['role'] + '\\n' + message['content'] + '<|im_end|>' + '\\n' }}{% endfor %}{% if add_generation_prompt %}{{ '<|im_start|>assistant\n' }}{% elif messages[-1]['role'] == 'assistant' %}{{ eos_token }}{% endif %}",
            example_chat.clone(),
            false,
            "<bos>",
            "<eos>",
            "<bos><|im_start|>user\nHello, how are you?<|im_end|>\n<|im_start|>assistant\nI'm doing great. How can I help you today?<|im_end|>\n<|im_start|>user\nI'd like to show off how chat templating works!<|im_end|>\n",
        ),
        (
            "mistralai/Mistral-7B-Instruct-v0.1",
            "{{ bos_token }}{% for message in messages %}{% if (message['role'] == 'user') != (loop.index0 % 2 == 0) %}{{ raise_exception('Conversation roles must alternate user/assistant/user/assistant/...') }}{% endif %}{% if message['role'] == 'user' %}{{ '[INST] ' + message['content'] + ' [/INST]' }}{% elif message['role'] == 'assistant' %}{{ message['content'] + eos_token + ' ' }}{% else %}{{ raise_exception('Only user and assistant roles are supported!') }}{% endif %}{% endfor %}",
            example_chat.clone(),
            false,
            "<s>",
            "</s>",
            "<s>[INST] Hello, how are you? [/INST]I'm doing great. How can I help you today?</s> [INST] I'd like to show off how chat templating works! [/INST]",
        ),
        (
            "mistralai/Mixtral-8x7B-Instruct-v0.1",
            "{{ bos_token }}{% for message in messages %}{% if (message['role'] == 'user') != (loop.index0 % 2 == 0) %}{{ raise_exception('Conversation roles must alternate user/assistant/user/assistant/...') }}{% endif %}{% if message['role'] == 'user' %}{{ '[INST] ' + message['content'] + ' [/INST]' }}{% elif message['role'] == 'assistant' %}{{ message['content'] + eos_token}}{% else %}{{ raise_exception('Only user and assistant roles are supported!') }}{% endif %}{% endfor %}",
            example_chat.clone(),
            false,
            "<s>",
            "</s>",
            "<s>[INST] Hello, how are you? [/INST]I'm doing great. How can I help you today?</s>[INST] I'd like to show off how chat templating works! [/INST]",
        ),
        (
            "cognitivecomputations/dolphin-2.5-mixtral-8x7b",
            "{% if not add_generation_prompt is defined %}{% set add_generation_prompt = false %}{% endif %}{% for message in messages %}{{'<|im_start|>' + message['role'] + '\\n' + message['content'] + '<|im_end|>' + '\\n'}}{% endfor %}{% if add_generation_prompt %}{{ '<|im_start|>assistant\\n' }}{% endif %}",
            example_chat.clone(),
            false,
            "<s>",
            "</s>",
            "<|im_start|>user\nHello, how are you?<|im_end|>\n<|im_start|>assistant\nI'm doing great. How can I help you today?<|im_end|>\n<|im_start|>user\nI'd like to show off how chat templating works!<|im_end|>\n",
        ),
        (
            "openchat/openchat-3.5-0106",
            "{{ bos_token }}{% for message in messages %}{{ 'GPT4 Correct ' + (message['role'] | title) + ': ' + message['content'] + '<|end_of_turn|>'}}{% endfor %}{% if add_generation_prompt %}{{ 'GPT4 Correct Assistant:' }}{% endif %}",
            example_chat.clone(),
            false,
            "<s>",
            "</s>",
            "<s>GPT4 Correct User: Hello, how are you?<|end_of_turn|>GPT4 Correct Assistant: I'm doing great. How can I help you today?<|end_of_turn|>GPT4 Correct User: I'd like to show off how chat templating works!<|end_of_turn|>",
        ),
        (
            "upstage/SOLAR-10.7B-Instruct-v1.0",
            "{% for message in messages %}{{ message.content }}{{ eos_token }}{% endfor %}",
            example_chat.clone(),
            false,
            "<s>",
            "</s>",
            "Hello, how are you?</s>I'm doing great. How can I help you today?</s>I'd like to show off how chat templating works!</s>",
        ),
        (
            "codellama/CodeLlama-70b-Instruct-hf",
            "{% if messages[0]['role'] == 'system' %}{% set user_index = 1 %}{% else %}{% set user_index = 0 %}{% endif %}{% for message in messages %}{% if (message['role'] == 'user') != ((loop.index0 + user_index) % 2 == 0) %}{{ raise_exception('Conversation roles must alternate user/assistant/user/assistant/...') }}{% endif %}{% if loop.index0 == 0 %}{{ '<s>' }}{% endif %}{% set content = 'Source: ' + message['role'] + '\\n\\n ' + message['content'] | trim %}{{ content + ' <step> ' }}{% endfor %}{{'Source: assistant\\nDestination: user\\n\\n '}}",
            example_chat.clone(),
            false,
            "<s>",
            "</s>",
            "<s>Source: user\n\n Hello, how are you? <step> Source: assistant\n\n I'm doing great. How can I help you today? <step> Source: user\n\n I'd like to show off how chat templating works! <step> Source: assistant\nDestination: user\n\n ",
        ),
        (
            "Deci/DeciLM-7B-instruct",
            "{% for message in messages %}\n{% if message['role'] == 'user' %}\n{{ '### User:\\n' + message['content'] }}\n{% elif message['role'] == 'system' %}\n{{ '### System:\\n' + message['content'] }}\n{% elif message['role'] == 'assistant' %}\n{{ '### Assistant:\\n'  + message['content'] }}\n{% endif %}\n{% if loop.last and add_generation_prompt %}\n{{ '### Assistant:' }}\n{% endif %}\n{% endfor %}",
            example_chat.clone(),
            false,
            "<s>",
            "</s>",
            "### User:\nHello, how are you?### Assistant:\nI'm doing great. How can I help you today?### User:\nI'd like to show off how chat templating works!",
        ),
        (
            "Qwen/Qwen1.5-72B-Chat",
            "{% for message in messages %}{% if loop.first and messages[0]['role'] != 'system' %}{{ '<|im_start|>system\\nYou are a helpful assistant<|im_end|>\\n' }}{% endif %}{{'<|im_start|>' + message['role'] + '\\n' + message['content']}}{% if (loop.last and add_generation_prompt) or not loop.last %}{{ '<|im_end|>' + '\\n'}}{% endif %}{% endfor %}{% if add_generation_prompt and messages[-1]['role'] != 'assistant' %}{{ '<|im_start|>assistant\\n' }}{% endif %}",
            example_chat.clone(),
            false,
            "<s>",
            "</s>",
            "<|im_start|>system\nYou are a helpful assistant<|im_end|>\n<|im_start|>user\nHello, how are you?<|im_end|>\n<|im_start|>assistant\nI'm doing great. How can I help you today?<|im_end|>\n<|im_start|>user\nI'd like to show off how chat templating works!",
        ),
        (
            "deepseek-ai/deepseek-llm-7b-chat",
            "{% if not add_generation_prompt is defined %}{% set add_generation_prompt = false %}{% endif %}{{ bos_token }}{% for message in messages %}{% if message['role'] == 'user' %}{{ 'User: ' + message['content'] + '\\n\\n' }}{% elif message['role'] == 'assistant' %}{{ 'Assistant: ' + message['content'] + eos_token }}{% elif message['role'] == 'system' %}{{ message['content'] + '\\n\\n' }}{% endif %}{% endfor %}{% if add_generation_prompt %}{{ 'Assistant:' }}{% endif %}",
            example_chat.clone(),
            false,
            "<｜begin▁of▁sentence｜>",
            "<｜end▁of▁sentence｜>",
            "<｜begin▁of▁sentence｜>User: Hello, how are you?\n\nAssistant: I'm doing great. How can I help you today?<｜end▁of▁sentence｜>User: I'd like to show off how chat templating works!\n\n",
        ),
        (
            "h2oai/h2o-danube-1.8b-chat",
            "{% for message in messages %}{% if message['role'] == 'user' %}{{ '<|prompt|>' + message['content'] + eos_token }}{% elif message['role'] == 'system' %}{{ '<|system|>' + message['content'] + eos_token }}{% elif message['role'] == 'assistant' %}{{ '<|answer|>'  + message['content'] + eos_token }}{% endif %}{% if loop.last and add_generation_prompt %}{{ '<|answer|>' }}{% endif %}{% endfor %}",
            example_chat.clone(),
            false,
            "<s>",
            "</s>",
            "<|prompt|>Hello, how are you?</s><|answer|>I'm doing great. How can I help you today?</s><|prompt|>I'd like to show off how chat templating works!</s>",
        ),
        (
            "internlm/internlm2-chat-7b",
            "{% if messages[0]['role'] == 'user' or messages[0]['role'] == 'system' %}{{ bos_token }}{% endif %}{% for message in messages %}{{ '<|im_start|>' + message['role'] + '\\n' + message['content'] + '<|im_end|>' + '\\n' }}{% endfor %}{% if add_generation_prompt %}{{ '<|im_start|>assistant\\n' }}{% elif messages[-1]['role'] == 'assistant' %}{{ eos_token }}{% endif %}",
            example_chat.clone(),
            false,
            "<s>",
            "</s>",
            "<s><|im_start|>user\nHello, how are you?<|im_end|>\n<|im_start|>assistant\nI'm doing great. How can I help you today?<|im_end|>\n<|im_start|>user\nI'd like to show off how chat templating works!<|im_end|>\n",
        ),
        (
            "TheBloke/deepseek-coder-33B-instruct-AWQ",
            "{%- set found_item = false -%}\n{%- for message in messages -%}\n    {%- if message['role'] == 'system' -%}\n        {%- set found_item = true -%}\n    {%- endif -%}\n{%- endfor -%}\n{%- if not found_item -%}\n{{'You are an AI programming assistant, utilizing the Deepseek Coder model, developed by Deepseek Company, and you only answer questions related to computer science. For politically sensitive questions, security and privacy issues, and other non-computer science questions, you will refuse to answer.\\n'}}\n{%- endif %}\n{%- for message in messages %}\n    {%- if message['role'] == 'system' %}\n{{ message['content'] }}\n    {%- else %}\n        {%- if message['role'] == 'user' %}\n{{'### Instruction:\\n' + message['content'] + '\\n'}}\n        {%- else %}\n{{'### Response:\\n' + message['content'] + '\\n<|EOT|>\\n'}}\n        {%- endif %}\n    {%- endif %}\n{%- endfor %}\n{{'### Response:\\n'}}\n",
            example_chat.clone(),
            false,
            "<｜begin▁of▁sentence｜>",
            "<|EOT|>",
            "You are an AI programming assistant, utilizing the Deepseek Coder model, developed by Deepseek Company, and you only answer questions related to computer science. For politically sensitive questions, security and privacy issues, and other non-computer science questions, you will refuse to answer.\n### Instruction:\nHello, how are you?\n### Response:\nI'm doing great. How can I help you today?\n<|EOT|>\n### Instruction:\nI'd like to show off how chat templating works!\n### Response:\n",
        ),
        (
            "ericzzz/falcon-rw-1b-chat",
            "{% for message in messages %}{% if loop.index > 1 and loop.previtem['role'] != 'assistant' %}{{ ' ' }}{% endif %}{% if message['role'] == 'system' %}{{ '[SYS] ' + message['content'] | trim }}{% elif message['role'] == 'user' %}{{ '[INST] ' + message['content'] | trim }}{% elif message['role'] == 'assistant' %}{{ '[RESP] '  + message['content'] + eos_token }}{% endif %}{% endfor %}{% if add_generation_prompt %}{{ ' [RESP] ' }}{% endif %}",
            example_chat.clone(),
            false,
            "<|endoftext|>",
            "<|endoftext|>",
            "[INST] Hello, how are you? [RESP] I'm doing great. How can I help you today?<|endoftext|>[INST] I'd like to show off how chat templating works!",
        ),
        (
            "abacusai/Smaug-34B-v0.1",
            "{%- for idx in range(0, messages|length) -%}\n{%- if messages[idx]['role'] == 'user' -%}\n{%- if idx > 1 -%}\n{{- bos_token + '[INST] ' + messages[idx]['content'] + ' [/INST]' -}}\n{%- else -%}\n{{- messages[idx]['content'] + ' [/INST]' -}}\n{%- endif -%}\n{% elif messages[idx]['role'] == 'system' %}\n{{- '[INST] <<SYS>>\\n' + messages[idx]['content'] + '\\n<</SYS>>\\n\\n' -}}\n{%- elif messages[idx]['role'] == 'assistant' -%}\n{{- ' '  + messages[idx]['content'] + ' ' + eos_token -}}\n{% endif %}\n{% endfor %}",
            example_chat.clone(),
            false,
            "<s>",
            "</s>",
            "Hello, how are you? [/INST] I'm doing great. How can I help you today? </s><s>[INST] I'd like to show off how chat templating works! [/INST]",
        ),
        (
            "maywell/Synatra-Mixtral-8x7B",
            "Below is an instruction that describes a task. Write a response that appropriately completes the request.\n\n{% for message in messages %}{% if message['role'] == 'user' %}### Instruction:\n{{ message['content']|trim -}}{% if not loop.last %}{% endif %}\n{% elif message['role'] == 'assistant' %}### Response:\n{{ message['content']|trim -}}{% if not loop.last %}{% endif %}\n{% elif message['role'] == 'system' %}{{ message['content']|trim -}}{% if not loop.last %}{% endif %}\n{% endif %}\n{% endfor %}\n{% if add_generation_prompt and messages[-1]['role'] != 'assistant' %}\n### Response:\n{% endif %}",
            example_chat.clone(),
            false,
            "<s>",
            "</s>",
            "Below is an instruction that describes a task. Write a response that appropriately completes the request.### Instruction:Hello, how are you?### Response:I'm doing great. How can I help you today?### Instruction:I'd like to show off how chat templating works!",
        ),
        (
            "deepseek-ai/deepseek-coder-33b-instruct",
            "{% if not add_generation_prompt is defined %}\n{% set add_generation_prompt = false %}\n{% endif %}\n{%- set ns = namespace(found=false) -%}\n{%- for message in messages -%}\n    {%- if message['role'] == 'system' -%}\n        {%- set ns.found = true -%}\n    {%- endif -%}\n{%- endfor -%}\n{{bos_token}}{%- if not ns.found -%}\n{{'You are an AI programming assistant, utilizing the Deepseek Coder model, developed by Deepseek Company, and you only answer questions related to computer science. For politically sensitive questions, security and privacy issues, and other non-computer science questions, you will refuse to answer\\n'}}\n{%- endif %}\n{%- for message in messages %}\n    {%- if message['role'] == 'system' %}\n{{ message['content'] }}\n    {%- else %}\n        {%- if message['role'] == 'user' %}\n{{'### Instruction:\\n' + message['content'] + '\\n'}}\n        {%- else %}\n{{'### Response:\\n' + message['content'] + '\\n<|EOT|>\\n'}}\n        {%- endif %}\n    {%- endif %}\n{%- endfor %}\n{% if add_generation_prompt %}\n{{'### Response:'}}\n{% endif %}",
            example_chat.clone(),
            false,
            "<｜begin▁of▁sentence｜>",
            "</EOT>",
            "<｜begin▁of▁sentence｜>You are an AI programming assistant, utilizing the Deepseek Coder model, developed by Deepseek Company, and you only answer questions related to computer science. For politically sensitive questions, security and privacy issues, and other non-computer science questions, you will refuse to answer\n### Instruction:\nHello, how are you?\n### Response:\nI'm doing great. How can I help you today?\n<|EOT|>\n### Instruction:\nI'd like to show off how chat templating works!\n",
        ),
        (
            "maywell/PiVoT-MoE",
            "{{ (messages|selectattr('role', 'equalto', 'system')|list|last).content|trim if (messages|selectattr('role', 'equalto', 'system')|list) else '' }}{% for message in messages %}{% if message['role'] == 'system' %}{{ message['content']|trim }}{% elif message['role'] == 'user' %}### Instruction: {{ message['content']|trim }}{% elif message['role'] == 'assistant' %}### Response: {{ message['content']|trim }}{% elif message['role'] == 'user_context' %}### Input: {{ message['content']|trim }}{% endif %}{% if not loop.last %}\n{% endif %}{% endfor %}{% if add_generation_prompt and messages[-1]['role'] != 'assistant' %}### Response:{% endif %}",
            example_chat_with_system.clone(),
            false,
            "<s>",
            "</s>",
            "You are a friendly chatbot who always responds in the style of a pirateYou are a friendly chatbot who always responds in the style of a pirate### Instruction: Hello, how are you?### Response: I'm doing great. How can I help you today?### Instruction: I'd like to show off how chat templating works!",
        ),
    ];

    for (_name, chat_template, messages, add_generation_prompt, bos_token, eos_token, target) in
        test_custom_templates
    {
        let chat_template = trim_lines(chat_template);
        let result =
            render(&chat_template, &messages, bos_token, eos_token, add_generation_prompt)
                .unwrap();
        assert_eq!(result, target);
    }
}
